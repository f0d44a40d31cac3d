//! Creating, deleting, moving and renaming: which keys change, and what changes
//! in the manifests with them.

use crate::crypto;
use crate::crypto::VaultKeys;
use crate::dir_view;
use crate::manifest;
use crate::manifest::Manifest;
use crate::manifest_store::Edit;
use crate::settings::BackendKind;
use crate::storage::entries;
use crate::storage::entries::{RawObject, RawView, RemoteEntry, RemoteView};
use crate::text;
use crate::worker::upload;
use vstd::prelude::*;
use vstd::string::*;

verus! {

/// The key of a folder: with one slash at its end.
pub open spec fn folder_key(key: Seq<char>) -> Seq<char> {
    if key.len() > 0 && key.last() == '/' {
        key
    } else {
        key.push('/')
    }
}

fn as_folder(key: &str) -> (r: String)
    ensures
        r@ == folder_key(key@),
{
    let mut out = key.to_string();
    if !text::ends_with(key, '/') {
        out.push('/');
    }
    out
}

/// The stored name of an item: hashed in an encrypted session, else the name.
pub open spec fn stored_name(name_key: Option<Seq<u8>>, name: Seq<char>) -> Seq<char> {
    match name_key {
        Some(key) => dir_view::stored_segment(key, name),
        None => name,
    }
}

/// How an empty folder is created.
pub struct CreatePlan {
    /// The key of the folder.
    pub key: String,
    /// The key to write an empty marker object to, where folders are objects.
    pub marker: Option<String>,
    /// The key whose parents are to be made, where folders are directories.
    pub prepare: Option<String>,
    /// The change to the manifest of the directory, in an encrypted session.
    pub edit: Option<Edit>,
}

/// How an empty folder named `name` is created under a prefix.
pub fn create_folder(keys: Option<&VaultKeys>, kind: BackendKind, prefix: &str, name: &str) -> (r:
    CreatePlan)
    requires
        keys is Some ==> crypto::name_fits(name@),
    ensures
        r.key@ == (prefix@ + stored_name(upload::name_key_of(keys), name@)).push('/'),
        match r.marker {
            Some(m) => kind == BackendKind::S3 && m@ == r.key@,
            None => kind != BackendKind::S3,
        },
        match r.prepare {
            Some(p) => kind != BackendKind::S3 && p@ == r.key@.push('x'),
            None => kind == BackendKind::S3,
        },
        match keys {
            Some(k) => r.edit matches Some(Edit::UpsertFolder { encrypted, name: n })
                && encrypted@ == crypto::name_cipher(k.name_key(), name@) && n@ == name@,
            None => r.edit is None,
        },
{
    let mut key = prefix.to_string();
    let edit = match keys {
        Some(k) => {
            let encrypted = crypto::encrypt_name(k, name).unwrap();
            let hash = manifest::hash_entry(encrypted.as_str());
            key.append(hash.as_str());
            Some(Edit::UpsertFolder { encrypted, name: name.to_string() })
        },
        None => {
            key.append(name);
            None
        },
    };
    key.push('/');
    let marker = if kind == BackendKind::S3 {
        Some(key.clone())
    } else {
        None
    };
    let prepare = if kind == BackendKind::S3 {
        None
    } else {
        let mut below = key.clone();
        below.push('x');
        Some(below)
    };
    CreatePlan { key, marker, prepare, edit }
}

/// The keys of listed objects.
pub open spec fn raw_keys(list: Seq<RawView>) -> Seq<Seq<char>> {
    list.map_values(|o: RawView| o.key)
}

/// The keys that are deleted for the first `k` items: of a folder all that was
/// listed below it, and then its own.
pub open spec fn doomed_keys(
    items: Seq<RemoteView>,
    below: Seq<Seq<RawView>>,
    k: nat,
) -> Seq<Seq<char>>
    decreases k,
{
    if k == 0 {
        Seq::empty()
    } else {
        let front = doomed_keys(items, below, (k - 1) as nat);
        if items[k - 1].is_dir {
            (front + raw_keys(below[k - 1])).push(items[k - 1].key)
        } else {
            front.push(items[k - 1].key)
        }
    }
}

/// The objects of each list.
pub open spec fn below_views(below: Seq<Vec<RawObject>>) -> Seq<Seq<RawView>> {
    below.map_values(|list: Vec<RawObject>| entries::raw_views(list@))
}

/// The keys to delete for a selection; `below` holds for each item what was
/// listed below it.
pub fn delete_keys(items: &Vec<RemoteEntry>, below: &Vec<Vec<RawObject>>) -> (r: Vec<String>)
    requires
        below@.len() == items@.len(),
    ensures
        text::views(r@) == doomed_keys(
            entries::entry_views(items@),
            below_views(below@),
            items@.len(),
        ),
{
    let ghost iv = entries::entry_views(items@);
    let ghost bv = below_views(below@);
    let mut out: Vec<String> = Vec::new();
    let mut i: usize = 0;
    assert(text::views(out@) =~= doomed_keys(iv, bv, 0));
    while i < items.len()
        invariant
            i <= items.len(),
            below@.len() == items@.len(),
            iv == entries::entry_views(items@),
            bv == below_views(below@),
            text::views(out@) == doomed_keys(iv, bv, i as nat),
        decreases items.len() - i,
    {
        let ghost front = text::views(out@);
        assert(iv[i as int] == items@[i as int]@);
        if items[i].is_dir {
            let listed = &below[i];
            let ghost rv = entries::raw_views(listed@);
            assert(bv[i as int] == rv);
            let mut j: usize = 0;
            assert(front + raw_keys(rv).take(0) =~= front);
            while j < listed.len()
                invariant
                    j <= listed.len(),
                    rv == entries::raw_views(listed@),
                    text::views(out@) == front + raw_keys(rv).take(j as int),
                decreases listed.len() - j,
            {
                let ghost before = text::views(out@);
                out.push(listed[j].key.clone());
                assert(text::views(out@) =~= before.push(rv[j as int].key));
                assert(front + raw_keys(rv).take(j as int + 1) =~= (front + raw_keys(rv).take(
                    j as int,
                )).push(rv[j as int].key));
                j += 1;
            }
            assert(raw_keys(rv).take(j as int) =~= raw_keys(rv));
        }
        let ghost before = text::views(out@);
        out.push(items[i].key.clone());
        assert(text::views(out@) =~= before.push(iv[i as int].key));
        i += 1;
    }
    out
}

/// A delete is complete, and deletes nothing else. The key of each chosen item is
/// among the keys, and of a chosen folder the key of every object that was listed
/// below it, before the folder's own; every key is one of these.
pub proof fn law_delete_is_complete(items: Seq<RemoteView>, below: Seq<Seq<RawView>>, k: nat)
    requires
        k <= items.len(),
        below.len() == items.len(),
    ensures
        ({
            let keys = doomed_keys(items, below, k);
            &&& forall|i: int| 0 <= i < k ==> keys.contains((#[trigger] items[i]).key)
            &&& forall|i: int, j: int|
                0 <= i < k && items[i].is_dir && 0 <= j < below[i].len() ==> exists|p: int, q: int|
                    0 <= p < q < keys.len() && #[trigger] keys[p] == (
                    #[trigger] below[i][j]).key && #[trigger] keys[q] == items[i].key
            &&& forall|p: int|
                0 <= p < keys.len() ==> (exists|i: int|
                    0 <= i < k && #[trigger] keys[p] == (#[trigger] items[i]).key) || (exists|
                    i: int,
                    j: int,
                |
                    0 <= i < k && items[i].is_dir && 0 <= j < below[i].len() && keys[p] == (
                    #[trigger] below[i][j]).key)
        }),
    decreases k,
{
    if k > 0 {
        let keys = doomed_keys(items, below, k);
        let front = doomed_keys(items, below, (k - 1) as nat);
        let last = k - 1;
        law_delete_is_complete(items, below, (k - 1) as nat);
        assert(front =~= keys.take(front.len() as int));
        assert(keys.last() == items[last].key);
        assert forall|i: int| 0 <= i < k implies keys.contains((#[trigger] items[i]).key) by {
            if i < last {
                let p = choose|p: int| 0 <= p < front.len() && front[p] == items[i].key;
                assert(keys[p] == items[i].key);
            } else {
                assert(keys[keys.len() - 1] == items[i].key);
            }
        }
        assert forall|i: int, j: int|
            0 <= i < k && items[i].is_dir && 0 <= j < below[i].len() implies exists|p: int, q: int|
            0 <= p < q < keys.len() && #[trigger] keys[p] == (#[trigger] below[i][j]).key
                && #[trigger] keys[q] == items[i].key by {
            if i < last {
                let (p, q) = choose|p: int, q: int|
                    0 <= p < q < front.len() && #[trigger] front[p] == below[i][j].key
                        && #[trigger] front[q] == items[i].key;
                assert(keys[p] == front[p] && keys[q] == front[q]);
            } else {
                let p = front.len() + j;
                assert(raw_keys(below[i])[j] == below[i][j].key);
                assert(keys[p] == below[i][j].key);
                assert(keys[keys.len() - 1] == items[i].key);
            }
        }
        assert forall|p: int| 0 <= p < keys.len() implies (exists|i: int|
            0 <= i < k && #[trigger] keys[p] == (#[trigger] items[i]).key) || (exists|i: int, j: int|
            0 <= i < k && items[i].is_dir && 0 <= j < below[i].len() && keys[p] == (
            #[trigger] below[i][j]).key) by {
            if p < front.len() {
                assert(keys[p] == front[p]);
                if exists|i: int| 0 <= i < k - 1 && front[p] == (#[trigger] items[i]).key {
                    let i = choose|i: int| 0 <= i < k - 1 && front[p] == (#[trigger] items[i]).key;
                    assert(keys[p] == items[i].key);
                } else {
                    let (i, j) = choose|i: int, j: int|
                        0 <= i < k - 1 && items[i].is_dir && 0 <= j < below[i].len() && front[p]
                            == (#[trigger] below[i][j]).key;
                    assert(keys[p] == below[i][j].key);
                }
            } else if p == keys.len() - 1 {
                assert(keys[p] == items[last].key);
            } else {
                let j = p - front.len();
                assert(raw_keys(below[last])[j] == below[last][j].key);
                assert(keys[p] == below[last][j].key);
            }
        }
    }
}

/// What changes in the manifests when an item is deleted.
pub struct Forgetting {
    /// The directory of the item, and the change to its manifest.
    pub dir: String,
    pub edit: Edit,
    /// The prefix of a deleted folder, whose own manifest is dropped.
    pub forget: Option<String>,
}

/// What changes in the manifests when an item is deleted.
pub fn after_delete(keys: &VaultKeys, item: &RemoteEntry) -> (r: Forgetting)
    requires
        crypto::name_fits(item.name@),
    ensures
        r.dir@ == dir_view::parent_of(item.key@),
        r.edit matches Edit::Remove { encrypted } && encrypted@ == crypto::name_cipher(
            keys.name_key(),
            item.name@,
        ),
        match r.forget {
            Some(prefix) => item.is_dir && prefix@ == folder_key(item.key@),
            None => !item.is_dir,
        },
{
    let encrypted = crypto::encrypt_name(keys, item.name.as_str()).unwrap();
    let forget = if item.is_dir {
        Some(as_folder(item.key.as_str()))
    } else {
        None
    };
    Forgetting {
        dir: dir_view::parent_prefix(item.key.as_str()),
        edit: Edit::Remove { encrypted },
        forget,
    }
}

/// A key that becomes another one.
#[derive(Debug)]
pub struct Relocation {
    pub from: String,
    pub to: String,
}

/// A key that becomes another one.
pub struct Route {
    pub from: Seq<char>,
    pub to: Seq<char>,
}

/// Where an item goes when it is moved into a directory: under its own last
/// segment. Nothing moves where it is already, and no folder into itself.
pub open spec fn moved_to(item: RemoteView, dest: Seq<char>) -> Option<Route> {
    let leaf = dir_view::leaf(item.key);
    if item.is_dir {
        let from = folder_key(item.key);
        let to = (dest + leaf).push('/');
        if to == from || from.is_prefix_of(dest) {
            None
        } else {
            Some(Route { from, to })
        }
    } else {
        let to = dest + leaf;
        if to == item.key {
            None
        } else {
            Some(Route { from: item.key, to })
        }
    }
}

/// Where an item goes when it is moved into a directory, if it goes anywhere.
pub fn plan_move(item: &RemoteEntry, dest_prefix: &str) -> (r: Option<Relocation>)
    ensures
        match moved_to(item@, dest_prefix@) {
            Some(route) => r is Some && r->0.from@ == route.from && r->0.to@ == route.to,
            None => r is None,
        },
{
    let leaf = dir_view::leaf_of(item.key.as_str());
    let mut to = text::concat(dest_prefix, leaf.as_str());
    if item.is_dir {
        let from = as_folder(item.key.as_str());
        to.push('/');
        if text::same(to.as_str(), from.as_str()) || text::starts_with(
            dest_prefix,
            from.as_str(),
        ) {
            None
        } else {
            Some(Relocation { from, to })
        }
    } else if text::same(to.as_str(), item.key.as_str()) {
        None
    } else {
        Some(Relocation { from: item.key.clone(), to })
    }
}

/// The record of an item that is moved: the directory it is taken from, and the
/// encrypted name it has there and in the destination.
pub fn moved_record(keys: &VaultKeys, item: &RemoteEntry) -> (r: (String, String))
    requires
        crypto::name_fits(item.name@),
    ensures
        r.0@ == dir_view::parent_of(item.key@),
        r.1@ == crypto::name_cipher(keys.name_key(), item.name@),
{
    let encrypted = crypto::encrypt_name(keys, item.name.as_str()).unwrap();
    (dir_view::parent_prefix(item.key.as_str()), encrypted)
}

/// The last segment of a key holds no slash.
pub proof fn lemma_leaf(key: Seq<char>)
    ensures
        !dir_view::leaf(key).contains('/'),
{
    let trimmed = text::trim_end_char(key, '/');
    text::lemma_last_at(trimmed, '/');
    let at = text::last_at(trimmed, '/');
    let leaf = dir_view::leaf(key);
    if leaf.contains('/') {
        let i = choose|i: int| 0 <= i < leaf.len() && leaf[i] == '/';
        assert(trimmed[at + 1 + i] == '/');
    }
}

/// The directory of a key is empty or closed by a slash.
pub proof fn lemma_parent(key: Seq<char>)
    ensures
        dir_view::is_prefix(dir_view::parent_of(key)),
{
    let trimmed = text::trim_end_char(key, '/');
    text::lemma_last_at(trimmed, '/');
}

/// A folder is never moved below itself: what it becomes does not start with
/// what it was.
pub proof fn law_no_folder_into_itself(item: RemoteView, dest: Seq<char>)
    requires
        item.is_dir,
        moved_to(item, dest) is Some,
    ensures
        moved_to(item, dest) matches Some(route) && !route.from.is_prefix_of(route.to),
{
    let route = moved_to(item, dest)->0;
    let from = route.from;
    let to = route.to;
    let leaf = dir_view::leaf(item.key);
    lemma_leaf(item.key);
    if from.is_prefix_of(to) {
        let n = from.len() as int;
        assert(from[n - 1] == '/');
        assert(to[n - 1] == '/');
        if n <= dest.len() {
            assert(from =~= dest.take(n));
        } else if n < to.len() {
            assert(leaf[n - 1 - dest.len()] == '/');
        } else {
            assert(from =~= to);
        }
    }
}

/// A move keeps the last segment of a key, and puts it into the destination.
pub proof fn law_move_keeps_leaf(item: RemoteView, dest: Seq<char>)
    requires
        dir_view::is_prefix(dest),
        dir_view::leaf(item.key).len() > 0,
        moved_to(item, dest) is Some,
    ensures
        moved_to(item, dest) matches Some(route) && dir_view::parent_of(route.to) == dest
            && dir_view::leaf(route.to) == dir_view::leaf(item.key),
{
    lemma_leaf(item.key);
    dir_view::law_parent_of_child(dest, dir_view::leaf(item.key));
}

/// An item moves exactly where it can. One that lies in a directory under a name
/// stays where it is if that is the destination, or if it is a folder that the
/// destination lies in; else it moves from its key to its name in the destination,
/// a folder with a slash at the end of both.
pub proof fn law_item_moves_where_it_can(
    item: RemoteView,
    dir: Seq<char>,
    name: Seq<char>,
    dest: Seq<char>,
)
    requires
        dir_view::is_prefix(dir),
        dir_view::is_prefix(dest),
        name.len() > 0,
        !name.contains('/'),
        item.key == dir + name || (item.is_dir && item.key == (dir + name).push('/')),
    ensures
        ({
            let from = if item.is_dir {
                (dir + name).push('/')
            } else {
                dir + name
            };
            let to = if item.is_dir {
                (dest + name).push('/')
            } else {
                dest + name
            };
            if dest == dir || (item.is_dir && from.is_prefix_of(dest)) {
                moved_to(item, dest) is None
            } else {
                moved_to(item, dest) == Some(Route { from, to })
            }
        }),
{
    dir_view::law_parent_of_child(dir, name);
    assert(name.last() != '/') by {
        assert(name.contains(name.last()));
    }
    assert((dir + name).last() == name.last());
    if dest + name == dir + name {
        assert(dest =~= (dest + name).take(dest.len() as int));
        assert(dir =~= (dir + name).take(dir.len() as int));
        assert(dest.len() == dir.len());
    }
    if (dest + name).push('/') == (dir + name).push('/') {
        assert(dest + name =~= (dest + name).push('/').drop_last());
        assert(dir + name =~= (dir + name).push('/').drop_last());
        assert(dest =~= (dest + name).take(dest.len() as int));
        assert(dir =~= (dir + name).take(dir.len() as int));
        assert(dest.len() == dir.len());
    }
}

/// Why an item is not renamed.
#[derive(Debug)]
pub enum RenameError {
    InvalidName,
    /// There is an item of the new name.
    Taken(String),
}

impl RenameError {
    /// What the user is told.
    pub open spec fn text(self) -> Seq<char> {
        match self {
            RenameError::InvalidName => "invalid name"@,
            RenameError::Taken(name) => "an item named \""@ + name@ + "\" already exists here"@,
        }
    }

    /// What the user is told.
    pub fn message(&self) -> (r: String)
        ensures
            r@ == self.text(),
    {
        match self {
            RenameError::InvalidName => "invalid name".to_owned(),
            RenameError::Taken(name) => {
                let mut out = "an item named \"".to_owned();
                out.append(name.as_str());
                out.append("\" already exists here");
                out
            },
        }
    }
}

/// Whether text can be the name of an item: not blank, and without a slash.
pub open spec fn is_valid_name(name: Seq<char>) -> bool {
    text::trim_space(name).len() > 0 && !name.contains('/')
}

/// Whether text can be the name of an item.
pub fn valid_name(name: &str) -> (r: bool)
    ensures
        r == is_valid_name(name@),
{
    !text::trim(name).as_str().is_empty() && !text::contains_char(name, '/')
}

/// The key of an item under a new last segment.
pub open spec fn renamed_key(key: Seq<char>, is_dir: bool, segment: Seq<char>) -> Seq<char> {
    let to = dir_view::parent_of(key) + segment;
    if is_dir {
        to.push('/')
    } else {
        to
    }
}

/// The key that is renamed.
pub open spec fn old_key(key: Seq<char>, is_dir: bool) -> Seq<char> {
    if is_dir {
        folder_key(key)
    } else {
        key
    }
}

/// How an item is renamed.
pub enum RenamePlan {
    /// The name stays as it is stored.
    Nothing,
    /// The key changes and nothing else.
    Plain(Relocation),
    /// The key changes to that of the new stored name, unless the directory has
    /// an item of that name; with it the directory's manifest.
    Encrypted {
        relocation: Relocation,
        dir: String,
        new_hash: String,
        /// The prefix of a renamed folder, whose buffered manifest is dropped.
        forget: Option<String>,
        /// The encrypted names, and the new name, that the manifest is changed by.
        old_encrypted: String,
        new_encrypted: String,
        name: String,
    },
}

/// Whether a plan is how an item is renamed.
pub open spec fn is_rename_plan(
    plan: RenamePlan,
    name_key: Option<Seq<u8>>,
    key: Seq<char>,
    is_dir: bool,
    old_name: Seq<char>,
    new_name: Seq<char>,
    encrypted: bool,
) -> bool {
    let from = old_key(key, is_dir);
    if encrypted && name_key is Some {
        let nk = name_key->0;
        let old_hash = dir_view::stored_segment(nk, old_name);
        let new_hash = dir_view::stored_segment(nk, new_name);
        if old_hash == new_hash {
            plan is Nothing
        } else {
            plan matches RenamePlan::Encrypted {
                relocation,
                dir,
                new_hash: h,
                forget,
                old_encrypted,
                new_encrypted,
                name,
            } && {
                &&& relocation.from@ == from
                &&& relocation.to@ == renamed_key(key, is_dir, new_hash)
                &&& dir@ == dir_view::parent_of(key)
                &&& h@ == new_hash
                &&& manifest::is_hash(new_hash)
                &&& match forget {
                    Some(prefix) => is_dir && prefix@ == from,
                    None => !is_dir,
                }
                &&& old_encrypted@ == crypto::name_cipher(nk, old_name)
                &&& new_encrypted@ == crypto::name_cipher(nk, new_name)
                &&& name@ == new_name
            }
        }
    } else {
        let to = renamed_key(key, is_dir, new_name);
        if to == from {
            plan is Nothing
        } else {
            plan matches RenamePlan::Plain(relocation) && relocation.from@ == from
                && relocation.to@ == to
        }
    }
}

/// How an item is renamed. Only an encrypted item of an encrypted session is
/// renamed by stored names; any other keeps its literal name in storage.
pub fn plan_rename(
    keys: Option<&VaultKeys>,
    key: &str,
    is_dir: bool,
    old_name: &str,
    new_name: &str,
    encrypted: bool,
) -> (r: Result<RenamePlan, RenameError>)
    requires
        encrypted && keys is Some ==> crypto::name_fits(old_name@) && crypto::name_fits(new_name@),
    ensures
        !is_valid_name(new_name@) <==> r is Err,
        r matches Err(e) ==> e is InvalidName,
        r matches Ok(plan) ==> is_rename_plan(
            plan,
            upload::name_key_of(keys),
            key@,
            is_dir,
            old_name@,
            new_name@,
            encrypted,
        ),
{
    if !valid_name(new_name) {
        return Err(RenameError::InvalidName);
    }
    let dir = dir_view::parent_prefix(key);
    let from = if is_dir {
        as_folder(key)
    } else {
        key.to_string()
    };
    let hashed = match keys {
        Some(k) => if encrypted {
            Some(k)
        } else {
            None
        },
        None => None,
    };
    match hashed {
        Some(k) => {
            let old_enc = crypto::encrypt_name(k, old_name).unwrap();
            let new_enc = crypto::encrypt_name(k, new_name).unwrap();
            let old_hash = manifest::hash_entry(old_enc.as_str());
            let new_hash = manifest::hash_entry(new_enc.as_str());
            if text::same(old_hash.as_str(), new_hash.as_str()) {
                return Ok(RenamePlan::Nothing);
            }
            let mut to = text::concat(dir.as_str(), new_hash.as_str());
            let forget = if is_dir {
                to.push('/');
                Some(from.clone())
            } else {
                None
            };
            Ok(
                RenamePlan::Encrypted {
                    relocation: Relocation { from, to },
                    dir,
                    new_hash,
                    forget,
                    old_encrypted: old_enc,
                    new_encrypted: new_enc,
                    name: new_name.to_string(),
                },
            )
        },
        None => {
            let mut to = text::concat(dir.as_str(), new_name);
            if is_dir {
                to.push('/');
            }
            if text::same(to.as_str(), from.as_str()) {
                Ok(RenamePlan::Nothing)
            } else {
                Ok(RenamePlan::Plain(Relocation { from, to }))
            }
        },
    }
}

/// Whether the new name is free in a directory.
pub fn check_free(manifest: &Manifest, new_hash: &str, new_name: &str) -> (r: Result<
    (),
    RenameError,
>)
    ensures
        r is Err <==> manifest@.name_of(new_hash@) is Some,
        r matches Err(e) ==> (e matches RenameError::Taken(name) && name@ == new_name@),
{
    if manifest.name_for(new_hash).is_some() {
        Err(RenameError::Taken(new_name.to_string()))
    } else {
        Ok(())
    }
}

/// A rename leaves an item in its directory.
pub proof fn law_rename_stays_in_place(key: Seq<char>, is_dir: bool, segment: Seq<char>)
    requires
        segment.len() > 0,
        !segment.contains('/'),
    ensures
        dir_view::parent_of(renamed_key(key, is_dir, segment)) == dir_view::parent_of(key),
        dir_view::leaf(renamed_key(key, is_dir, segment)) == segment,
{
    lemma_parent(key);
    dir_view::law_parent_of_child(dir_view::parent_of(key), segment);
}

/// An item is renamed in its place. One that lies in a directory under a name gets
/// the new name there, as it is, or by its stored name where it is an encrypted item
/// of an encrypted session; a folder has a slash at the end of both keys. Nothing is
/// done exactly where that changes nothing.
pub proof fn law_rename_changes_last_segment(
    plan: RenamePlan,
    name_key: Option<Seq<u8>>,
    dir: Seq<char>,
    name: Seq<char>,
    is_dir: bool,
    old_name: Seq<char>,
    new_name: Seq<char>,
    encrypted: bool,
)
    requires
        dir_view::is_prefix(dir),
        name.len() > 0,
        !name.contains('/'),
        is_rename_plan(plan, name_key, dir + name, is_dir, old_name, new_name, encrypted)
            || (is_dir && is_rename_plan(
            plan,
            name_key,
            (dir + name).push('/'),
            is_dir,
            old_name,
            new_name,
            encrypted,
        )),
    ensures
        ({
            let hashed = encrypted && name_key is Some;
            let old_hash = manifest::entry_hash(crypto::name_cipher(name_key->0, old_name));
            let segment = if hashed {
                manifest::entry_hash(crypto::name_cipher(name_key->0, new_name))
            } else {
                new_name
            };
            let from = if is_dir {
                (dir + name).push('/')
            } else {
                dir + name
            };
            let to = if is_dir {
                (dir + segment).push('/')
            } else {
                dir + segment
            };
            match plan {
                RenamePlan::Nothing => if hashed {
                    segment == old_hash
                } else {
                    segment == name
                },
                RenamePlan::Plain(r) => !hashed && segment != name && r.from@ == from && r.to@
                    == to,
                RenamePlan::Encrypted {
                    relocation,
                    dir: d,
                    new_hash,
                    forget,
                    old_encrypted,
                    new_encrypted,
                    name: n,
                } => {
                    &&& hashed
                    &&& segment != old_hash
                    &&& relocation.from@ == from
                    &&& relocation.to@ == to
                    &&& d@ == dir
                    &&& new_hash@ == segment
                    &&& forget is Some == is_dir
                    &&& forget matches Some(f) ==> f@ == from
                    &&& old_encrypted@ == crypto::name_cipher(name_key->0, old_name)
                    &&& new_encrypted@ == crypto::name_cipher(name_key->0, new_name)
                    &&& n@ == new_name
                },
            }
        }),
{
    dir_view::law_parent_of_child(dir, name);
    assert(name.last() != '/') by {
        assert(name.contains(name.last()));
    }
    assert((dir + name).last() == name.last());
    if !(encrypted && name_key is Some) {
        if dir + new_name == dir + name {
            assert(new_name =~= (dir + new_name).skip(dir.len() as int));
            assert(name =~= (dir + name).skip(dir.len() as int));
        }
        if (dir + new_name).push('/') == (dir + name).push('/') {
            assert(dir + new_name =~= (dir + new_name).push('/').drop_last());
            assert(dir + name =~= (dir + name).push('/').drop_last());
            assert(new_name =~= (dir + new_name).skip(dir.len() as int));
            assert(name =~= (dir + name).skip(dir.len() as int));
        }
    }
}

/// The key of a folder is the key with a slash at its end, and one is enough.
pub proof fn law_folder_key_is_closed(key: Seq<char>)
    ensures
        folder_key(key).last() == '/',
        key.len() > 0 && key.last() == '/' ==> folder_key(key) == key,
        key.len() == 0 || key.last() != '/' ==> folder_key(key) == key + seq!['/'],
        folder_key(folder_key(key)) == folder_key(key),
{
    assert(key.push('/') =~= key + seq!['/']);
}

/// A name is valid where it holds anything but white space, and no slash.
pub proof fn law_valid_name_has_text(name: Seq<char>)
    ensures
        is_valid_name(name) <==> !name.contains('/') && exists|i: int|
            0 <= i < name.len() && !text::is_space(#[trigger] name[i]),
{
    let t = text::trim_start_where(name, text::is_blank());
    let u = text::trim_end_where(t, text::is_blank());
    text::law_trim_start_takes_the_run(name, text::is_blank());
    text::law_trim_end_takes_the_run(t, text::is_blank());
    let gone = name.len() - t.len();
    if u.len() > 0 {
        assert(!text::is_space(t[u.len() - 1]));
        assert(name[gone + u.len() - 1] == t[u.len() - 1]);
    } else if exists|i: int| 0 <= i < name.len() && !text::is_space(#[trigger] name[i]) {
        let i = choose|i: int| 0 <= i < name.len() && !text::is_space(#[trigger] name[i]);
        if i < gone {
            assert(text::is_blank()(name[i]));
        } else {
            assert(t[i - gone] == name[i]);
            assert(text::is_blank()(t[i - gone]));
        }
    }
}

/// Whatever the destination, an item stays only if it lies there already or is a
/// folder that the destination lies in; and what moves goes from its own key to its
/// own last segment below the destination.
pub proof fn law_only_what_cannot_move_stays(item: RemoteView, dest: Seq<char>)
    requires
        dir_view::leaf(item.key).len() > 0,
    ensures
        moved_to(item, dest) is None ==> dest == dir_view::parent_of(item.key) || (item.is_dir
            && folder_key(item.key).is_prefix_of(dest)),
        item.is_dir && folder_key(item.key).is_prefix_of(dest) ==> moved_to(item, dest) is None,
        moved_to(item, dest) matches Some(route) ==> {
            &&& item.is_dir ==> route.from == folder_key(item.key) && route.to == dest
                + dir_view::leaf(item.key) + seq!['/']
            &&& !item.is_dir ==> route.from == item.key && route.to == dest + dir_view::leaf(
                item.key,
            )
        },
{
    let (key, parent, leaf) = (item.key, dir_view::parent_of(item.key), dir_view::leaf(item.key));
    dir_view::law_key_is_parent_and_leaf(key);
    assert((dest + leaf).push('/') =~= dest + leaf + seq!['/']);
    assert(leaf.last() != '/') by {
        assert(leaf.contains(leaf.last()));
    }
    let whole = dest + leaf;
    assert(whole.last() == leaf.last());
    assert((parent + leaf).last() == leaf.last());
    if key == whole {
        assert(parent + leaf == key);
        assert(dest =~= key.take(key.len() - leaf.len()));
        assert(parent =~= (parent + leaf).take(key.len() - leaf.len()));
    }
    if folder_key(key) == whole.push('/') {
        let n = (parent + leaf).len();
        if key.last() == '/' {
            assert(key[key.len() - 2] == whole.last());
            assert(n == key.len() - 1);
            assert(parent + leaf =~= key.take(key.len() - 1));
            assert(whole =~= key.take(key.len() - 1));
        } else {
            assert(whole =~= whole.push('/').drop_last());
            assert(key =~= key.push('/').drop_last());
        }
        assert(parent + leaf == whole);
        assert(dest =~= whole.take(whole.len() - leaf.len()));
        assert(parent =~= whole.take(whole.len() - leaf.len()));
    }
}

} // verus!
