//! Objects as a backend lists them and entries as the user sees them.

use crate::sorting;
use crate::sorting::SortKey;
use crate::text;
use vstd::prelude::*;
use vstd::string::*;

verus! {

/// An object, or a common prefix of objects, as a backend lists it.
#[derive(Clone, Debug)]
pub struct RawObject {
    /// The full key; that of a prefix ends in `/`.
    pub key: String,
    /// The stored size.
    pub size: u64,
    /// When it was last modified, in seconds since the epoch.
    pub modified: Option<i64>,
    /// Whether it is a prefix, that is a directory.
    pub is_prefix: bool,
}

/// An entry of a listing as the user sees it.
#[derive(Clone, Debug)]
pub struct RemoteEntry {
    /// The full key; that of a directory ends in `/`.
    pub key: String,
    /// The name to show.
    pub name: String,
    pub is_dir: bool,
    pub size: u64,
    /// When it was last modified, in seconds since the epoch.
    pub modified: Option<i64>,
    /// In an encrypted session, whether the entry is an encrypted one; absent in
    /// a plain session.
    pub encrypted: Option<bool>,
}

/// A multipart upload that was started.
#[derive(Clone, Debug)]
pub struct MultipartUpload {
    pub upload_id: String,
    pub key: String,
}

/// A listed object.
pub struct RawView {
    pub key: Seq<char>,
    pub size: u64,
    pub modified: Option<i64>,
    pub is_prefix: bool,
}

/// A shown entry.
pub struct RemoteView {
    pub key: Seq<char>,
    pub name: Seq<char>,
    pub is_dir: bool,
    pub size: u64,
    pub modified: Option<i64>,
    pub encrypted: Option<bool>,
}

impl View for RawObject {
    type V = RawView;

    open spec fn view(&self) -> RawView {
        RawView {
            key: self.key@,
            size: self.size,
            modified: self.modified,
            is_prefix: self.is_prefix,
        }
    }
}

impl View for RemoteEntry {
    type V = RemoteView;

    open spec fn view(&self) -> RemoteView {
        RemoteView {
            key: self.key@,
            name: self.name@,
            is_dir: self.is_dir,
            size: self.size,
            modified: self.modified,
            encrypted: self.encrypted,
        }
    }
}

/// The objects of a list.
pub open spec fn raw_views(list: Seq<RawObject>) -> Seq<RawView> {
    list.map_values(|o: RawObject| o@)
}

/// The entries of a list.
pub open spec fn entry_views(list: Seq<RemoteEntry>) -> Seq<RemoteView> {
    list.map_values(|e: RemoteEntry| e@)
}

impl RawObject {
    /// An equal object.
    pub(crate) fn copy(&self) -> (r: Self)
        ensures
            r@ == self@,
    {
        RawObject {
            key: self.key.clone(),
            size: self.size,
            modified: self.modified,
            is_prefix: self.is_prefix,
        }
    }
}

impl RemoteEntry {
    /// An equal entry.
    pub(crate) fn copy(&self) -> (r: Self)
        ensures
            r@ == self@,
    {
        RemoteEntry {
            key: self.key.clone(),
            name: self.name.clone(),
            is_dir: self.is_dir,
            size: self.size,
            modified: self.modified,
            encrypted: self.encrypted,
        }
    }
}

/// Whether entry `a` is shown before entry `b` whatever the order they came in:
/// directories first, then by name without regard to case.
pub open spec fn shown_first(a: RemoteView, b: RemoteView) -> bool {
    (a.is_dir && !b.is_dir) || (a.is_dir == b.is_dir && text::before(
        text::lowercase(a.name),
        text::lowercase(b.name),
    ))
}

/// Whether `order` takes the positions of `list` in the order in which the
/// entries are shown; entries that tie keep the order they came in.
pub open spec fn is_shown_order(order: Seq<usize>, list: Seq<RemoteView>) -> bool {
    &&& order.len() == list.len()
    &&& forall|i: int| 0 <= i < order.len() ==> #[trigger] order[i] < list.len()
    &&& forall|i: int, j: int|
        0 <= i < j < order.len() ==> {
            let a = #[trigger] order[i];
            let b = #[trigger] order[j];
            shown_first(list[a as int], list[b as int]) || (!shown_first(
                list[b as int],
                list[a as int],
            ) && a < b)
        }
}

/// Whether `shown` holds the entries of `list` in the order in which they are
/// shown.
pub open spec fn is_shown(shown: Seq<RemoteView>, list: Seq<RemoteView>) -> bool {
    exists|order: Seq<usize>| #[trigger]
        is_shown_order(order, list) && shown == order.map_values(|i: usize| list[i as int])
}

/// Whether `order` takes every position below `n` once.
pub open spec fn takes_each_once(order: Seq<usize>, n: nat) -> bool {
    &&& order.len() == n
    &&& forall|i: int| 0 <= i < order.len() ==> #[trigger] order[i] < n
    &&& forall|i: int, j: int|
        0 <= i < j < order.len() ==> #[trigger] order[i] != #[trigger] order[j]
}

/// A list is shown whole and in order: every entry once, directories before files,
/// each by name without regard to case, and entries of one name in the order they
/// came in.
pub proof fn law_shown_in_order(shown: Seq<RemoteView>, list: Seq<RemoteView>) -> (order: Seq<
    usize,
>)
    requires
        is_shown(shown, list),
    ensures
        takes_each_once(order, list.len()),
        shown.len() == list.len(),
        forall|i: int| 0 <= i < shown.len() ==> #[trigger] shown[i] == list[order[i] as int],
        forall|i: int, j: int|
            0 <= i < j < shown.len() ==> {
                let a = #[trigger] shown[i];
                let b = #[trigger] shown[j];
                &&& b.is_dir ==> a.is_dir
                &&& a.is_dir == b.is_dir ==> !text::before(
                    text::lowercase(b.name),
                    text::lowercase(a.name),
                )
                &&& a.is_dir == b.is_dir && text::lowercase(a.name) == text::lowercase(b.name)
                    ==> order[i] < order[j]
            },
{
    let order = choose|order: Seq<usize>| #[trigger]
        is_shown_order(order, list) && shown == order.map_values(|i: usize| list[i as int]);
    assert forall|i: int, j: int| 0 <= i < j < shown.len() implies {
        let a = #[trigger] shown[i];
        let b = #[trigger] shown[j];
        &&& b.is_dir ==> a.is_dir
        &&& a.is_dir == b.is_dir ==> !text::before(
            text::lowercase(b.name),
            text::lowercase(a.name),
        )
        &&& a.is_dir == b.is_dir && text::lowercase(a.name) == text::lowercase(b.name)
            ==> order[i] < order[j]
    } by {
        let a = list[order[i] as int];
        let b = list[order[j] as int];
        let x = text::lowercase(a.name);
        let y = text::lowercase(b.name);
        assert(shown[i] == a && shown[j] == b);
        assert(shown_first(a, b) || (!shown_first(b, a) && order[i] < order[j]));
        text::lemma_before_irreflexive(x);
        if text::before(x, y) && text::before(y, x) {
            text::lemma_before_transitive(x, y, x);
        }
    }
    assert forall|i: int, j: int| 0 <= i < j < order.len() implies #[trigger] order[i]
        != #[trigger] order[j] by {
        let a = list[order[i] as int];
        text::lemma_before_irreflexive(text::lowercase(a.name));
        assert(!shown_first(a, a));
    }
    order
}

/// What an entry is sorted by.
struct ShownKey {
    is_dir: bool,
    lower: String,
}

impl SortKey for ShownKey {
    closed spec fn first(&self, other: &Self) -> bool {
        (self.is_dir && !other.is_dir) || (self.is_dir == other.is_dir && text::before(
            self.lower@,
            other.lower@,
        ))
    }

    proof fn lemma_asymmetric(a: &Self, b: &Self) {
        if a.is_dir == b.is_dir && text::before(b.lower@, a.lower@) {
            text::lemma_before_transitive(a.lower@, b.lower@, a.lower@);
            text::lemma_before_irreflexive(a.lower@);
        }
    }

    proof fn lemma_weak(a: &Self, b: &Self, c: &Self) {
        if a.is_dir == b.is_dir && c.is_dir == a.is_dir {
            text::lemma_before_total(a.lower@, c.lower@);
            if text::before(c.lower@, a.lower@) {
                text::lemma_before_transitive(c.lower@, a.lower@, b.lower@);
            }
        }
    }

    fn comes_first(&self, other: &Self) -> (r: bool) {
        (self.is_dir && !other.is_dir) || (self.is_dir == other.is_dir && text::comes_before(
            self.lower.as_str(),
            other.lower.as_str(),
        ))
    }
}

/// The entries in the order in which they are shown.
pub fn sort_entries(list: &Vec<RemoteEntry>) -> (r: Vec<RemoteEntry>)
    ensures
        is_shown(entry_views(r@), entry_views(list@)),
{
    let ghost views = entry_views(list@);
    let mut keys: Vec<ShownKey> = Vec::new();
    let mut i: usize = 0;
    while i < list.len()
        invariant
            i <= list@.len(),
            keys@.len() == i,
            forall|j: int|
                0 <= j < i ==> (#[trigger] keys@[j]).is_dir == list@[j].is_dir && keys@[j].lower@
                    == text::lowercase(list@[j].name@),
        decreases list@.len() - i,
    {
        keys.push(
            ShownKey {
                is_dir: list[i].is_dir,
                lower: text::to_lowercase(list[i].name.as_str()),
            },
        );
        i += 1;
    }
    let order = sorting::stable_order(&keys);
    assert forall|a: int, b: int|
        0 <= a < list@.len() && 0 <= b < list@.len() implies #[trigger] keys@[a].first(
        &keys@[b],
    ) == shown_first(views[a], views[b]) by {
        assert(views[a] == list@[a]@ && views[b] == list@[b]@);
    }
    assert(is_shown_order(order@, views)) by {
        assert forall|i: int, j: int| 0 <= i < j < order@.len() implies {
            let a = #[trigger] order@[i];
            let b = #[trigger] order@[j];
            shown_first(views[a as int], views[b as int]) || (!shown_first(
                views[b as int],
                views[a as int],
            ) && a < b)
        } by {
            assert(sorting::goes_before(keys@, order@[i] as int, order@[j] as int));
        }
    }
    let mut out: Vec<RemoteEntry> = Vec::new();
    let ghost f = |i: usize| views[i as int];
    let mut k: usize = 0;
    while k < order.len()
        invariant
            views == entry_views(list@),
            is_shown_order(order@, views),
            f == (|i: usize| views[i as int]),
            k <= order@.len(),
            entry_views(out@) == order@.take(k as int).map_values(f),
        decreases order@.len() - k,
    {
        let at = order[k];
        let entry = list[at].copy();
        let ghost before = entry_views(out@);
        out.push(entry);
        assert(entry_views(out@) =~= before.push(f(at)));
        assert(order@.take(k as int + 1).map_values(f) =~= before.push(f(at)));
        k += 1;
    }
    assert(order@.take(k as int) =~= order@);
    out
}

} // verus!
