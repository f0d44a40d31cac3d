//! What is shown for a listed directory.

use crate::crypto;
use crate::crypto::{CryptoError, VaultKeys, VAULT_KEY};
use crate::dir_view;
use crate::manifest::Manifest;
use crate::storage::entries;
use crate::storage::entries::{RawObject, RawView, RemoteEntry, RemoteView};
use crate::text;
use crate::worker::download;
use crate::worker::upload;
use vstd::prelude::*;
use vstd::string::*;

verus! {

/// Whether an object is the vault's, which is never shown.
pub open spec fn is_vault(o: RawView) -> bool {
    dir_view::leaf(o.key) == VAULT_KEY@
}

/// The objects of a list without the vault.
pub open spec fn without_vault(raw: Seq<RawView>) -> Seq<RawView>
    decreases raw.len(),
{
    if raw.len() == 0 {
        raw
    } else if is_vault(raw.last()) {
        without_vault(raw.drop_last())
    } else {
        without_vault(raw.drop_last()).push(raw.last())
    }
}

/// The objects of a listed directory without the vault.
pub fn user_objects(raw: &Vec<RawObject>) -> (r: Vec<RawObject>)
    ensures
        entries::raw_views(r@) == without_vault(entries::raw_views(raw@)),
{
    let ghost views = entries::raw_views(raw@);
    let mut out: Vec<RawObject> = Vec::new();
    let mut i: usize = 0;
    assert(entries::raw_views(out@) =~= without_vault(views.take(0)));
    while i < raw.len()
        invariant
            i <= raw.len(),
            views == entries::raw_views(raw@),
            entries::raw_views(out@) == without_vault(views.take(i as int)),
        decreases raw.len() - i,
    {
        let ghost before = entries::raw_views(out@);
        assert(views.take(i as int + 1).drop_last() =~= views.take(i as int));
        assert(views[i as int] == raw@[i as int]@);
        let leaf = dir_view::leaf_of(raw[i].key.as_str());
        if !text::same(leaf.as_str(), VAULT_KEY) {
            out.push(raw[i].copy());
            assert(entries::raw_views(out@) =~= before.push(views[i as int]));
        }
        i += 1;
    }
    assert(views.take(i as int) =~= views);
    out
}

/// The entry for an object by itself: in an encrypted session under the name
/// that its stored name decrypts to, or under the stored name as a foreign item.
pub open spec fn entry_of(name_key: Option<Seq<u8>>, o: RawView) -> RemoteView {
    let leaf = dir_view::leaf(o.key);
    RemoteView {
        key: o.key,
        name: match name_key {
            Some(key) => match crypto::name_plain(key, leaf) {
                Ok(name) => name,
                Err(_) => leaf,
            },
            None => leaf,
        },
        is_dir: o.is_prefix,
        size: o.size,
        modified: o.modified,
        encrypted: match name_key {
            Some(key) => Some(crypto::name_plain(key, leaf) is Ok),
            None => None,
        },
    }
}

/// The entry for an object by itself.
pub fn raw_to_entry(o: &RawObject, keys: Option<&VaultKeys>) -> (r: RemoteEntry)
    requires
        keys is Some ==> download::decodable(dir_view::leaf(o.key@)),
    ensures
        r@ == entry_of(upload::name_key_of(keys), o@),
{
    let raw_name = dir_view::leaf_of(o.key.as_str());
    let (name, encrypted) = match keys {
        Some(k) => match crypto::decrypt_name(k, raw_name.as_str()) {
            Ok(name) => (name, Some(true)),
            Err(_) => (raw_name, Some(false)),
        },
        None => (raw_name, None),
    };
    RemoteEntry {
        key: o.key.clone(),
        name,
        is_dir: o.is_prefix,
        size: o.size,
        modified: o.modified,
        encrypted,
    }
}

/// The entries of a plain directory, in the order of its objects.
pub open spec fn plain_entries(raw: Seq<RawView>) -> Seq<RemoteView> {
    raw.map_values(|o: RawView| entry_of(None, o))
}

/// A directory as it is shown.
#[derive(Debug)]
pub struct Shown {
    pub entries: Vec<RemoteEntry>,
    /// What the user is told besides, if anything.
    pub notice: Option<String>,
}

/// What the user is told of items that lost their names.
pub open spec fn orphan_notice(count: nat) -> Seq<char> {
    text::decimal(count)
        + " item(s) here lost their names (interrupted upload); re-upload to restore"@
}

/// A directory as it is shown: in an encrypted session by its manifest, in a
/// plain one by the names of its objects. The vault is never shown.
pub fn list(raw: &Vec<RawObject>, manifest: Option<&Manifest>) -> (r: Shown)
    ensures
        match manifest {
            Some(m) => {
                let objects = without_vault(entries::raw_views(raw@));
                let lost = dir_view::orphans(objects, m@);
                &&& entries::is_shown(
                    entries::entry_views(r.entries@),
                    dir_view::shown_entries(objects, m@),
                )
                &&& match r.notice {
                    Some(n) => lost > 0 && n@ == orphan_notice(lost),
                    None => lost == 0,
                }
            },
            None => {
                &&& entries::is_shown(
                    entries::entry_views(r.entries@),
                    plain_entries(without_vault(entries::raw_views(raw@))),
                )
                &&& r.notice is None
            },
        },
{
    let objects = user_objects(raw);
    match manifest {
        Some(m) => {
            let listing = dir_view::build_listing(&objects, m);
            let notice = if listing.orphan_count > 0 {
                let mut text = text::decimal_of(listing.orphan_count as u64);
                text.append(
                    " item(s) here lost their names (interrupted upload); re-upload to restore",
                );
                Some(text)
            } else {
                None
            };
            Shown { entries: listing.entries, notice }
        },
        None => {
            let ghost views = entries::raw_views(objects@);
            let mut list: Vec<RemoteEntry> = Vec::new();
            let mut i: usize = 0;
            while i < objects.len()
                invariant
                    i <= objects.len(),
                    views == entries::raw_views(objects@),
                    list@.len() == i,
                    forall|j: int|
                        0 <= j < i ==> (#[trigger] list@[j])@ == entry_of(None, views[j]),
                decreases objects.len() - i,
            {
                assert(views[i as int] == objects@[i as int]@);
                list.push(raw_to_entry(&objects[i], None));
                i += 1;
            }
            assert(entries::entry_views(list@) =~= plain_entries(views));
            Shown { entries: entries::sort_entries(&list), notice: None }
        },
    }
}

/// The vault's object is in no listing.
pub proof fn law_vault_is_hidden(raw: Seq<RawView>)
    ensures
        forall|o: RawView| #[trigger]
            without_vault(raw).contains(o) <==> raw.contains(o) && !is_vault(o),
    decreases raw.len(),
{
    if raw.len() > 0 {
        let front = raw.drop_last();
        let inner = without_vault(front);
        law_vault_is_hidden(front);
        assert forall|o: RawView| #[trigger]
            without_vault(raw).contains(o) <==> raw.contains(o) && !is_vault(o) by {
            let after = without_vault(raw);
            assert(raw[raw.len() - 1] == raw.last());
            if front.contains(o) {
                let i = choose|i: int| 0 <= i < front.len() && front[i] == o;
                assert(raw[i] == o);
            }
            if raw.contains(o) && o != raw.last() {
                let i = choose|i: int| 0 <= i < raw.len() && raw[i] == o;
                assert(front[i] == o);
            }
            if !is_vault(raw.last()) {
                assert(after[after.len() - 1] == raw.last());
                if inner.contains(o) {
                    let i = choose|i: int| 0 <= i < inner.len() && inner[i] == o;
                    assert(after[i] == o);
                }
                if after.contains(o) && o != raw.last() {
                    let i = choose|i: int| 0 <= i < after.len() && after[i] == o;
                    assert(inner[i] == o);
                }
            }
        }
    }
}

/// Only the vault's object is left out, and the others stay in their order.
pub proof fn law_listing_keeps_the_rest(raw: Seq<RawView>)
    ensures
        without_vault(raw) == raw.filter(|o: RawView| dir_view::leaf(o.key) != ".rse-vault"@),
    decreases raw.len(),
{
    reveal(Seq::filter);
    if raw.len() > 0 {
        law_listing_keeps_the_rest(raw.drop_last());
    } else {
        assert(raw =~= Seq::empty());
    }
}

/// A plain directory shows each object under the last segment of its key, with its
/// own key, size and time, and says nothing of encryption.
pub proof fn law_plain_entries_are_the_objects(raw: Seq<RawView>)
    ensures
        plain_entries(raw).len() == raw.len(),
        forall|i: int|
            0 <= i < raw.len() ==> {
                let e = #[trigger] plain_entries(raw)[i];
                &&& e.key == raw[i].key
                &&& e.name == dir_view::leaf(raw[i].key)
                &&& e.is_dir == raw[i].is_prefix
                &&& e.size == raw[i].size
                &&& e.modified == raw[i].modified
                &&& e.encrypted is None
            },
{
}

/// An object by itself is shown under its real name where its stored name is the
/// encryption of one, and is else shown as foreign under the stored one.
pub proof fn law_entry_has_the_real_name(key: Seq<u8>, o: RawView, name: Seq<char>)
    requires
        crypto::name_plain(key, dir_view::leaf(o.key)) == Ok::<Seq<char>, CryptoError>(name),
    ensures
        entry_of(Some(key), o).name == name,
        entry_of(Some(key), o).encrypted == Some(true),
        entry_of(Some(key), o).key == o.key,
        entry_of(Some(key), o).is_dir == o.is_prefix,
        entry_of(Some(key), o).size == o.size,
        entry_of(Some(key), o).modified == o.modified,
{
}

/// An object whose stored name is the encryption of none is shown as foreign.
pub proof fn law_foreign_entry_keeps_its_name(key: Seq<u8>, o: RawView)
    requires
        crypto::name_plain(key, dir_view::leaf(o.key)) is Err,
    ensures
        entry_of(Some(key), o).name == dir_view::leaf(o.key),
        entry_of(Some(key), o).encrypted == Some(false),
        entry_of(Some(key), o).key == o.key,
        entry_of(Some(key), o).is_dir == o.is_prefix,
        entry_of(Some(key), o).size == o.size,
        entry_of(Some(key), o).modified == o.modified,
{
}

} // verus!
