//! The browser: the way from the root to the directory that is shown, what of it
//! is shown, and what a gesture does.

use crate::storage::entries;
use crate::storage::entries::{RemoteEntry, RemoteView};
use crate::text;
use crate::ui::readable;
use vstd::prelude::*;
use vstd::string::*;

verus! {

/// A directory on the way from the root.
#[derive(Debug)]
pub struct Crumb {
    pub name: String,
    /// The stored prefix, empty for the root.
    pub prefix: String,
}

/// A directory on the way from the root.
pub struct CrumbView {
    pub name: Seq<char>,
    pub prefix: Seq<char>,
}

impl View for Crumb {
    type V = CrumbView;

    open spec fn view(&self) -> CrumbView {
        CrumbView { name: self.name@, prefix: self.prefix@ }
    }
}

/// The directories of a way.
pub open spec fn crumb_views(list: Seq<Crumb>) -> Seq<CrumbView> {
    list.map_values(|c: Crumb| c@)
}

/// Where the browser stands.
#[derive(Debug)]
pub struct Browser {
    path: Vec<Crumb>,
    entries: Vec<RemoteEntry>,
    generation: u64,
    pending: bool,
}

/// Where the browser stands.
pub struct BrowserView {
    pub path: Seq<CrumbView>,
    pub entries: Seq<RemoteView>,
    /// How many listings were asked for.
    pub generation: u64,
    /// Whether a listing is awaited.
    pub pending: bool,
}

impl View for Browser {
    type V = BrowserView;

    closed spec fn view(&self) -> BrowserView {
        BrowserView {
            path: crumb_views(self.path@),
            entries: entries::entry_views(self.entries@),
            generation: self.generation,
            pending: self.pending,
        }
    }
}

/// The root.
pub open spec fn root_crumb() -> CrumbView {
    CrumbView { name: Seq::empty(), prefix: Seq::empty() }
}

/// The prefix of the directory at the end of a way.
pub open spec fn prefix_at(path: Seq<CrumbView>) -> Seq<char> {
    if path.len() == 0 {
        Seq::empty()
    } else {
        path.last().prefix
    }
}

impl Browser {
    /// At the root, with nothing listed.
    pub fn new() -> (r: Self)
        ensures
            r@ == (BrowserView {
                path: seq![root_crumb()],
                entries: Seq::empty(),
                generation: 0,
                pending: false,
            }),
    {
        let mut path: Vec<Crumb> = Vec::new();
        path.push(Crumb { name: String::new(), prefix: String::new() });
        let r = Browser { path, entries: Vec::new(), generation: 0, pending: false };
        assert(r@.path =~= seq![root_crumb()]);
        assert(r@.entries =~= Seq::empty());
        r
    }

    /// The prefix of the directory that is shown.
    pub fn current_prefix(&self) -> (r: String)
        ensures
            r@ == prefix_at(self@.path),
    {
        if self.path.len() == 0 {
            assert(prefix_at(self@.path) =~= Seq::empty());
            String::new()
        } else {
            self.path[self.path.len() - 1].prefix.clone()
        }
    }

    /// The way to the directory that is shown, as the user reads it: the root is
    /// called the bucket.
    pub fn crumbs(&self) -> (r: Vec<Crumb>)
        ensures
            r@.len() == self@.path.len(),
            forall|i: int|
                0 <= i < r@.len() ==> (#[trigger] r@[i]).prefix@ == self@.path[i].prefix
                    && r@[i].name@ == if i == 0 {
                    "Bucket"@
                } else {
                    self@.path[i].name
                },
    {
        let mut out: Vec<Crumb> = Vec::new();
        let mut i: usize = 0;
        while i < self.path.len()
            invariant
                i <= self.path.len(),
                out@.len() == i,
                forall|j: int|
                    0 <= j < i ==> (#[trigger] out@[j]).prefix@ == self.path@[j].prefix@
                        && out@[j].name@ == if j == 0 {
                        "Bucket"@
                    } else {
                        self.path@[j].name@
                    },
            decreases self.path.len() - i,
        {
            let name = if i == 0 {
                "Bucket".to_owned()
            } else {
                self.path[i].name.clone()
            };
            out.push(Crumb { name, prefix: self.path[i].prefix.clone() });
            i += 1;
        }
        out
    }

    /// Goes back to the root and forgets what was listed.
    pub fn reset_to_root(&mut self)
        ensures
            final(self)@ == (BrowserView {
                path: seq![root_crumb()],
                entries: Seq::empty(),
                ..old(self)@
            }),
    {
        let mut path: Vec<Crumb> = Vec::new();
        path.push(Crumb { name: String::new(), prefix: String::new() });
        self.path = path;
        self.entries = Vec::new();
        assert(self@.path =~= seq![root_crumb()]);
        assert(self@.entries =~= Seq::empty());
    }

    /// Enters an entry, if it is a directory.
    pub fn enter(&mut self, entry: &RemoteEntry) -> (r: bool)
        ensures
            r == entry.is_dir,
            final(self)@ == if r {
                BrowserView {
                    path: old(self)@.path.push(
                        CrumbView { name: entry.name@, prefix: entry.key@ },
                    ),
                    ..old(self)@
                }
            } else {
                old(self)@
            },
    {
        if !entry.is_dir {
            return false;
        }
        self.path.push(Crumb { name: entry.name.clone(), prefix: entry.key.clone() });
        assert(self@.path =~= old(self)@.path.push(
            CrumbView { name: entry.name@, prefix: entry.key@ },
        ));
        true
    }

    /// Goes back to a directory on the way. Nothing changes where there is none of
    /// that number.
    pub fn go_back(&mut self, i: usize)
        ensures
            final(self)@ == (BrowserView {
                path: if i < old(self)@.path.len() {
                    old(self)@.path.take(i + 1)
                } else {
                    old(self)@.path
                },
                ..old(self)@
            }),
    {
        if i >= self.path.len() {
            return;
        }
        let n: usize = self.path.len();
        let mut k: usize = n;
        assert(self@.path =~= old(self)@.path.take(k as int));
        while k > i + 1
            invariant
                i + 1 <= k <= n,
                self.path@.len() == k,
                n == old(self)@.path.len(),
                self@ == (BrowserView { path: old(self)@.path.take(k as int), ..old(self)@ }),
            decreases k,
        {
            let _ = self.path.pop();
            assert(self@.path =~= old(self)@.path.take(k - 1));
            k -= 1;
        }
        assert(self@.path =~= old(self)@.path.take(i + 1));
    }

    /// Asks for the listing of the directory that is shown. Returns its prefix
    /// and the number of the request.
    pub fn request_list(&mut self) -> (r: (String, u64))
        requires
            old(self)@.generation < u64::MAX,
        ensures
            r.0@ == prefix_at(old(self)@.path),
            r.1 == old(self)@.generation + 1,
            final(self)@ == (BrowserView {
                generation: (old(self)@.generation + 1) as u64,
                pending: true,
                ..old(self)@
            }),
    {
        self.generation = self.generation + 1;
        self.pending = true;
        (self.current_prefix(), self.generation)
    }

    /// Whether a request is still unanswered, and no other was made since.
    pub fn is_slow(&self, generation: u64) -> (r: bool)
        ensures
            r == (self@.pending && self@.generation == generation),
    {
        self.pending && self.generation == generation
    }

    /// A listing could not be had.
    pub fn listing_failed(&mut self)
        ensures
            final(self)@ == (BrowserView { pending: false, ..old(self)@ }),
    {
        self.pending = false;
    }

    /// A listing has come. One of a directory that is no longer shown is passed
    /// over.
    pub fn set_listing(&mut self, prefix: &str, list: Vec<RemoteEntry>) -> (r: bool)
        ensures
            r == (prefix@ == prefix_at(old(self)@.path)),
            final(self)@ == if r {
                BrowserView {
                    pending: false,
                    entries: entries::entry_views(list@),
                    ..old(self)@
                }
            } else {
                old(self)@
            },
    {
        let current = self.current_prefix();
        if !text::same(prefix, current.as_str()) {
            return false;
        }
        self.pending = false;
        self.entries = list;
        true
    }

    /// The entries that are shown under a filter.
    pub fn filtered(&self, filter: &str) -> (r: Vec<RemoteEntry>)
        ensures
            entries::entry_views(r@) == matching(self@.entries, text::lowercase(filter@)),
    {
        let needle = text::to_lowercase(filter);
        let ghost views = self@.entries;
        let mut out: Vec<RemoteEntry> = Vec::new();
        let mut i: usize = 0;
        assert(entries::entry_views(out@) =~= matching(views.take(0), needle@));
        while i < self.entries.len()
            invariant
                i <= self.entries.len(),
                views == entries::entry_views(self.entries@),
                needle@ == text::lowercase(filter@),
                entries::entry_views(out@) == matching(views.take(i as int), needle@),
            decreases self.entries.len() - i,
        {
            let e = &self.entries[i];
            let ghost before = entries::entry_views(out@);
            assert(views.take(i as int + 1).drop_last() =~= views.take(i as int));
            assert(views[i as int] == e@);
            let lower = text::to_lowercase(e.name.as_str());
            if needle.as_str().is_empty() || text::contains_str(lower.as_str(), needle.as_str()) {
                out.push(e.copy());
                assert(entries::entry_views(out@) =~= before.push(views[i as int]));
            }
            i += 1;
        }
        assert(views.take(i as int) =~= views);
        out
    }

    /// The entry of a key.
    pub fn entry_by_key(&self, key: &str) -> (r: Option<RemoteEntry>)
        ensures
            match r {
                Some(e) => exists|i: int|
                    0 <= i < self@.entries.len() && (#[trigger] self@.entries[i]) == e@ && e@.key
                        == key@ && forall|j: int|
                        0 <= j < i ==> (#[trigger] self@.entries[j]).key != key@,
                None => forall|i: int|
                    0 <= i < self@.entries.len() ==> (#[trigger] self@.entries[i]).key != key@,
            },
    {
        let mut i: usize = 0;
        while i < self.entries.len()
            invariant
                i <= self.entries.len(),
                forall|j: int| 0 <= j < i ==> (#[trigger] self@.entries[j]).key != key@,
            decreases self.entries.len() - i,
        {
            assert(self@.entries[i as int] == self.entries@[i as int]@);
            if text::same(self.entries[i].key.as_str(), key) {
                let r = self.entries[i].copy();
                assert(self@.entries[i as int] == r@);
                return Some(r);
            }
            i += 1;
        }
        None
    }
}

/// Whether an entry is shown under a filter in lower case.
pub open spec fn matches_filter(e: RemoteView, needle: Seq<char>) -> bool {
    needle.len() == 0 || text::holds_text(text::lowercase(e.name), needle)
}

/// The entries that are shown under a filter in lower case.
pub open spec fn matching(list: Seq<RemoteView>, needle: Seq<char>) -> Seq<RemoteView>
    decreases list.len(),
{
    if list.len() == 0 {
        list
    } else if matches_filter(list.last(), needle) {
        matching(list.drop_last(), needle).push(list.last())
    } else {
        matching(list.drop_last(), needle)
    }
}

/// Without a filter everything is shown.
pub proof fn law_no_filter_shows_all(list: Seq<RemoteView>)
    ensures
        matching(list, Seq::empty()) == list,
    decreases list.len(),
{
    if list.len() > 0 {
        law_no_filter_shows_all(list.drop_last());
        assert(list.drop_last().push(list.last()) =~= list);
    }
}

/// Whether text can be the name of a new folder.
pub open spec fn is_folder_name(name: Seq<char>) -> bool {
    name.len() > 0 && !name.contains('/') && name != "."@ && name != ".."@
}

/// The name of a new folder, without the white space around it, if it can be
/// one.
pub fn folder_name(entered: &str) -> (r: Option<String>)
    ensures
        match r {
            Some(name) => name@ == text::trim_space(entered@) && is_folder_name(name@),
            None => !is_folder_name(text::trim_space(entered@)),
        },
{
    let name = text::trim(entered);
    if name.as_str().is_empty() || text::contains_char(name.as_str(), '/') || text::same(
        name.as_str(),
        ".",
    ) || text::same(name.as_str(), "..") {
        None
    } else {
        Some(name)
    }
}

/// The items of a list that are not the destination itself.
pub open spec fn not_into_itself(items: Seq<RemoteView>, dest: Seq<char>) -> Seq<RemoteView>
    decreases items.len(),
{
    if items.len() == 0 {
        items
    } else if text::trim_end_char(items.last().key, '/') == text::trim_end_char(dest, '/') {
        not_into_itself(items.drop_last(), dest)
    } else {
        not_into_itself(items.drop_last(), dest).push(items.last())
    }
}

/// Whether an item of a list has this key.
pub open spec fn has_key(items: Seq<RemoteView>, key: Seq<char>) -> bool {
    exists|i: int| 0 <= i < items.len() && (#[trigger] items[i]).key == key
}

fn holds_key(items: &Vec<RemoteEntry>, key: &str) -> (r: bool)
    ensures
        r == has_key(entries::entry_views(items@), key@),
{
    let ghost views = entries::entry_views(items@);
    let mut i: usize = 0;
    while i < items.len()
        invariant
            i <= items.len(),
            views == entries::entry_views(items@),
            forall|j: int| 0 <= j < i ==> (#[trigger] views[j]).key != key@,
        decreases items.len() - i,
    {
        assert(views[i as int] == items@[i as int]@);
        if text::same(items[i].key.as_str(), key) {
            return true;
        }
        i += 1;
    }
    false
}

/// What is moved when a row is dragged into a directory: the whole selection
/// where the row is part of one of several rows, else the row. The destination
/// itself is never among it.
pub fn dragged_items(
    selected: &Vec<RemoteEntry>,
    dragged: Option<&RemoteEntry>,
    dragged_key: &str,
    dest: &str,
) -> (r: Vec<RemoteEntry>)
    ensures
        ({
            let sel = entries::entry_views(selected@);
            let all = if sel.len() > 1 && has_key(sel, dragged_key@) {
                sel
            } else {
                match dragged {
                    Some(e) => seq![e@],
                    None => Seq::empty(),
                }
            };
            entries::entry_views(r@) == not_into_itself(all, dest@)
        }),
{
    let mut all: Vec<RemoteEntry> = Vec::new();
    if selected.len() > 1 && holds_key(selected, dragged_key) {
        let ghost sel = entries::entry_views(selected@);
        let mut i: usize = 0;
        while i < selected.len()
            invariant
                i <= selected.len(),
                sel == entries::entry_views(selected@),
                all@.len() == i,
                forall|j: int| 0 <= j < i ==> (#[trigger] all@[j])@ == sel[j],
            decreases selected.len() - i,
        {
            assert(sel[i as int] == selected@[i as int]@);
            all.push(selected[i].copy());
            i += 1;
        }
        assert(entries::entry_views(all@) =~= sel);
    } else {
        match dragged {
            Some(e) => {
                all.push(e.copy());
                assert(entries::entry_views(all@) =~= seq![e@]);
            },
            None => {
                assert(entries::entry_views(all@) =~= Seq::empty());
            },
        }
    }
    let target = text::trim_end(dest, '/');
    let ghost views = entries::entry_views(all@);
    let mut out: Vec<RemoteEntry> = Vec::new();
    let mut i: usize = 0;
    assert(entries::entry_views(out@) =~= not_into_itself(views.take(0), dest@));
    while i < all.len()
        invariant
            i <= all.len(),
            views == entries::entry_views(all@),
            target@ == text::trim_end_char(dest@, '/'),
            entries::entry_views(out@) == not_into_itself(views.take(i as int), dest@),
        decreases all.len() - i,
    {
        let ghost before = entries::entry_views(out@);
        assert(views.take(i as int + 1).drop_last() =~= views.take(i as int));
        assert(views[i as int] == all@[i as int]@);
        let key = text::trim_end(all[i].key.as_str(), '/');
        if !text::same(key.as_str(), target.as_str()) {
            out.push(all[i].copy());
            assert(entries::entry_views(out@) =~= before.push(views[i as int]));
        }
        i += 1;
    }
    assert(views.take(i as int) =~= views);
    out
}

/// The directory that things are dragged into is never dragged itself.
pub proof fn law_destination_stays(items: Seq<RemoteView>, dest: Seq<char>)
    ensures
        forall|i: int|
            0 <= i < not_into_itself(items, dest).len() ==> text::trim_end_char(
                (#[trigger] not_into_itself(items, dest)[i]).key,
                '/',
            ) != text::trim_end_char(dest, '/'),
    decreases items.len(),
{
    if items.len() > 0 {
        law_destination_stays(items.drop_last(), dest);
        let front = not_into_itself(items.drop_last(), dest);
        assert forall|i: int| 0 <= i < not_into_itself(items, dest).len() implies text::trim_end_char(
            (#[trigger] not_into_itself(items, dest)[i]).key,
            '/',
        ) != text::trim_end_char(dest, '/') by {
            if i < front.len() {
                assert(not_into_itself(items, dest)[i] == front[i]);
            }
        }
    }
}

/// Whether a row takes what is dragged onto it: a directory does, but not
/// itself.
pub fn takes_drop(dest: &RemoteEntry, dragged_key: &str) -> (r: bool)
    ensures
        r == (dest.is_dir && dest.key@ != dragged_key@),
{
    dest.is_dir && !text::same(dest.key.as_str(), dragged_key)
}

/// Whether a name is that of an image, by its ending.
pub open spec fn is_image(name: Seq<char>) -> bool {
    let lower = text::lowercase(name);
    ||| ".svg"@.is_suffix_of(lower)
    ||| ".png"@.is_suffix_of(lower)
    ||| ".jpg"@.is_suffix_of(lower)
    ||| ".jpeg"@.is_suffix_of(lower)
    ||| ".webp"@.is_suffix_of(lower)
    ||| ".gif"@.is_suffix_of(lower)
}

/// The icon of an entry.
pub fn icon_name(is_dir: bool, name: &str) -> (r: &'static str)
    ensures
        r@ == if is_dir {
            "folder-symbolic"@
        } else if is_image(name@) {
            "image-x-generic-symbolic"@
        } else {
            "text-x-generic-symbolic"@
        },
{
    if is_dir {
        return "folder-symbolic";
    }
    let lower = text::to_lowercase(name);
    let l = lower.as_str();
    if text::ends_with_str(l, ".svg") || text::ends_with_str(l, ".png") || text::ends_with_str(
        l,
        ".jpg",
    ) || text::ends_with_str(l, ".jpeg") || text::ends_with_str(l, ".webp") || text::ends_with_str(
        l,
        ".gif",
    ) {
        "image-x-generic-symbolic"
    } else {
        "text-x-generic-symbolic"
    }
}

/// A column that the entries can be sorted by.
#[derive(Clone, Copy, Debug, PartialEq, Eq, Structural)]
pub enum Column {
    Name,
    Size,
    Modified,
}

/// How one entry stands to another in a column.
#[derive(Clone, Copy, Debug, PartialEq, Eq, Structural)]
pub enum RowOrder {
    Before,
    Level,
    After,
}

/// Whether an entry goes before another in a column: directories before files,
/// then by what the column shows; an unknown time goes first.
pub open spec fn column_first(column: Column, a: RemoteView, b: RemoteView) -> bool {
    (a.is_dir && !b.is_dir) || (a.is_dir == b.is_dir && match column {
        Column::Name => text::before(text::lowercase(a.name), text::lowercase(b.name)),
        Column::Size => a.size < b.size,
        Column::Modified => match (a.modified, b.modified) {
            (None, Some(_)) => true,
            (Some(x), Some(y)) => x < y,
            _ => false,
        },
    })
}

/// How entry `a` stands to entry `b` in a column.
pub fn column_order(column: Column, a: &RemoteEntry, b: &RemoteEntry) -> (r: RowOrder)
    ensures
        r == RowOrder::Before <==> column_first(column, a@, b@),
        r == RowOrder::After <==> column_first(column, b@, a@),
{
    proof {
        law_columns_sort(column, a@, b@, a@);
    }
    if a.is_dir != b.is_dir {
        return if a.is_dir {
            RowOrder::Before
        } else {
            RowOrder::After
        };
    }
    let (less, greater) = match column {
        Column::Name => {
            let x = text::to_lowercase(a.name.as_str());
            let y = text::to_lowercase(b.name.as_str());
            (
                text::comes_before(x.as_str(), y.as_str()),
                text::comes_before(y.as_str(), x.as_str()),
            )
        },
        Column::Size => (a.size < b.size, b.size < a.size),
        Column::Modified => match (a.modified, b.modified) {
            (None, None) => (false, false),
            (None, Some(_)) => (true, false),
            (Some(_), None) => (false, true),
            (Some(x), Some(y)) => (x < y, y < x),
        },
    };
    if less {
        RowOrder::Before
    } else if greater {
        RowOrder::After
    } else {
        RowOrder::Level
    }
}

/// A column sorts: of two entries at most one goes before the other, and a third
/// does not stand level with both of two that do not stand level.
pub proof fn law_columns_sort(column: Column, a: RemoteView, b: RemoteView, c: RemoteView)
    ensures
        column_first(column, a, b) ==> !column_first(column, b, a),
        column_first(column, a, b) ==> column_first(column, a, c) || column_first(column, c, b),
{
    let (x, y, z) = (text::lowercase(a.name), text::lowercase(b.name), text::lowercase(c.name));
    if text::before(x, y) {
        if text::before(y, x) {
            text::lemma_before_transitive(x, y, x);
            text::lemma_before_irreflexive(x);
        }
        text::lemma_before_total(x, z);
        if text::before(z, x) {
            text::lemma_before_transitive(z, x, y);
        }
    }
}

/// What the size column shows of an entry: nothing for a directory.
pub fn size_text(entry: &RemoteEntry) -> (r: String)
    ensures
        r@ == if entry.is_dir {
            Seq::empty()
        } else {
            readable::size_text(entry.size)
        },
{
    if entry.is_dir {
        String::new()
    } else {
        readable::human_size(entry.size)
    }
}

/// Under a filter the entries are shown whose names hold it, whatever their case, in
/// the order of the listing.
pub proof fn law_filter_shows_what_holds_it(list: Seq<RemoteView>, needle: Seq<char>)
    ensures
        matching(list, needle) == list.filter(
            |e: RemoteView| needle.len() == 0 || exists|at: int|
                0 <= at <= text::lowercase(e.name).len() - needle.len()
                    && #[trigger] text::lowercase(e.name).subrange(at, at + needle.len()) == needle,
        ),
    decreases list.len(),
{
    reveal(Seq::filter);
    if list.len() > 0 {
        law_filter_shows_what_holds_it(list.drop_last(), needle);
    } else {
        assert(list =~= Seq::empty());
    }
}

/// All that is dragged is moved but the destination itself, in its order.
pub proof fn law_the_rest_is_dragged(items: Seq<RemoteView>, dest: Seq<char>)
    ensures
        not_into_itself(items, dest) == items.filter(
            |e: RemoteView| text::trim_end_char(e.key, '/') != text::trim_end_char(dest, '/'),
        ),
    decreases items.len(),
{
    reveal(Seq::filter);
    if items.len() > 0 {
        law_the_rest_is_dragged(items.drop_last(), dest);
    } else {
        assert(items =~= Seq::empty());
    }
}

/// Directories go before files in every column; of two of a kind the one that is
/// smaller, older or of unknown time, or earlier by name goes first.
pub proof fn law_columns_show_what_they_sort_by(a: RemoteView, b: RemoteView)
    ensures
        forall|column: Column|
            a.is_dir && !b.is_dir ==> #[trigger] column_first(column, a, b) && !column_first(
                column,
                b,
                a,
            ),
        a.is_dir == b.is_dir ==> {
            &&& column_first(Column::Size, a, b) <==> a.size < b.size
            &&& column_first(Column::Name, a, b) <==> text::before(
                text::lowercase(a.name),
                text::lowercase(b.name),
            )
            &&& column_first(Column::Modified, a, b) <==> b.modified is Some && (a.modified is None
                || a.modified->0 < b.modified->0)
        },
{
}

} // verus!
