//! Keys as paths of a directory tree: what the backends that store files in
//! directories have in common.

use crate::storage::entries;
use crate::storage::entries::{RawObject, RawView};
use crate::text;
use vstd::prelude::*;
use vstd::string::*;

verus! {

/// The object for one item of a directory that is listed.
pub open spec fn child_of(
    prefix: Seq<char>,
    name: Seq<char>,
    is_dir: bool,
    size: u64,
    modified: Option<i64>,
) -> RawView {
    RawView {
        key: if is_dir {
            (prefix + name).push('/')
        } else {
            prefix + name
        },
        size: if is_dir {
            0
        } else {
            size
        },
        modified,
        is_prefix: is_dir,
    }
}

/// The object for one item of a directory that is listed; the directory itself
/// and its parent are none.
fn listed_child(
    prefix: &str,
    name: &str,
    is_dir: bool,
    size: Option<u64>,
    modified: Option<i64>,
) -> (r: Option<RawObject>)
    ensures
        r is None <==> name@ == "."@ || name@ == ".."@,
        r matches Some(o) ==> o@ == child_of(
            prefix@,
            name@,
            is_dir,
            match size {
                Some(s) => s,
                None => 0,
            },
            modified,
        ),
{
    if text::same(name, ".") || text::same(name, "..") {
        return None;
    }
    let mut key = text::concat(prefix, name);
    if is_dir {
        key.push('/');
    }
    let size: u64 = match size {
        Some(s) => if is_dir {
            0
        } else {
            s
        },
        None => 0,
    };
    Some(RawObject { key, size, modified, is_prefix: is_dir })
}

/// What a server tells of one name in a directory.
#[derive(Debug)]
pub struct ListedName {
    pub name: String,
    pub is_dir: bool,
    pub size: Option<u64>,
    /// Seconds since the epoch.
    pub modified: Option<i64>,
}

/// What a directory holds, by what the server tells: all names but those of the
/// directory itself and of the one above.
pub open spec fn children_of(prefix: Seq<char>, names: Seq<ListedName>) -> Seq<RawView>
    decreases names.len(),
{
    if names.len() == 0 {
        Seq::empty()
    } else {
        let front = children_of(prefix, names.drop_last());
        let n = names.last();
        if n.name@ == "."@ || n.name@ == ".."@ {
            front
        } else {
            front.push(
                child_of(
                    prefix,
                    n.name@,
                    n.is_dir,
                    match n.size {
                        Some(s) => s,
                        None => 0,
                    },
                    n.modified,
                ),
            )
        }
    }
}

/// What a directory holds, by what the server tells.
pub fn listed_children(prefix: &str, names: &Vec<ListedName>) -> (r: Vec<RawObject>)
    ensures
        entries::raw_views(r@) == children_of(prefix@, names@),
{
    let mut out: Vec<RawObject> = Vec::new();
    let mut i: usize = 0;
    assert(entries::raw_views(out@) =~= children_of(prefix@, names@.take(0)));
    while i < names.len()
        invariant
            i <= names.len(),
            entries::raw_views(out@) == children_of(prefix@, names@.take(i as int)),
        decreases names.len() - i,
    {
        let ghost before = entries::raw_views(out@);
        assert(names@.take(i as int + 1).drop_last() =~= names@.take(i as int));
        let n = &names[i];
        if let Some(o) = listed_child(prefix, n.name.as_str(), n.is_dir, n.size, n.modified) {
            let ghost v = o@;
            out.push(o);
            assert(entries::raw_views(out@) =~= before.push(v));
        }
        i += 1;
    }
    assert(names@.take(i as int) =~= names@);
    out
}

/// A listing leaves nothing out: each name that is not that of the directory
/// itself or of the one above has its child.
pub proof fn law_children_are_complete(prefix: Seq<char>, names: Seq<ListedName>, i: int)
    requires
        0 <= i < names.len(),
        names[i].name@ != "."@,
        names[i].name@ != ".."@,
    ensures
        exists|j: int|
            0 <= j < children_of(prefix, names).len() && (#[trigger] children_of(prefix, names)[j])
                == child_of(
                prefix,
                names[i].name@,
                names[i].is_dir,
                match names[i].size {
                    Some(s) => s,
                    None => 0,
                },
                names[i].modified,
            ),
    decreases names.len(),
{
    let front = names.drop_last();
    let all = children_of(prefix, names);
    if i < front.len() {
        law_children_are_complete(prefix, front, i);
        let before = children_of(prefix, front);
        assert(front[i] == names[i]);
        let j = choose|j: int|
            0 <= j < before.len() && (#[trigger] before[j]) == child_of(
                prefix,
                names[i].name@,
                names[i].is_dir,
                match names[i].size {
                    Some(s) => s,
                    None => 0,
                },
                names[i].modified,
            );
        assert(all[j] == before[j]);
    } else {
        assert(all[all.len() - 1] == all.last());
    }
}

/// A path of the first `k` segments, as it grows when a segment is added to what
/// is there.
pub open spec fn walked(segments: Seq<Seq<char>>, k: nat) -> Seq<char>
    decreases k,
{
    if k == 0 {
        Seq::empty()
    } else {
        let front = walked(segments, (k - 1) as nat);
        if front.len() == 0 {
            segments[k - 1]
        } else {
            front.push('/') + segments[k - 1]
        }
    }
}

/// One directory on the way to another: its path and its own name.
#[derive(Debug)]
pub struct WalkStep {
    pub path: String,
    pub name: String,
}

/// The directories along a path.
fn steps(segments: &Vec<String>, n: usize) -> (r: Vec<WalkStep>)
    requires
        n <= segments@.len(),
    ensures
        r@.len() == n,
        forall|i: int|
            0 <= i < n ==> (#[trigger] r@[i]).path@ == walked(
                text::views(segments@),
                (i + 1) as nat,
            ) && r@[i].name@ == segments@[i]@,
{
    let ghost views = text::views(segments@);
    let mut out: Vec<WalkStep> = Vec::new();
    let mut partial = String::new();
    let mut i: usize = 0;
    assert(partial@ =~= walked(views, 0));
    while i < n
        invariant
            i <= n <= segments@.len(),
            views == text::views(segments@),
            out@.len() == i,
            partial@ == walked(views, i as nat),
            forall|j: int|
                0 <= j < i ==> (#[trigger] out@[j]).path@ == walked(views, (j + 1) as nat)
                    && out@[j].name@ == segments@[j]@,
        decreases n - i,
    {
        assert(views[i as int] == segments@[i as int]@);
        if !partial.as_str().is_empty() {
            partial.push('/');
        } else {
            assert(partial@ + views[i as int] =~= views[i as int]);
        }
        partial.append(segments[i].as_str());
        out.push(WalkStep { path: partial.clone(), name: segments[i].clone() });
        i += 1;
    }
    out
}

/// The segments of a key, slashes at its end aside.
pub open spec fn key_segments(key: Seq<char>) -> Seq<Seq<char>> {
    text::split_on(text::trim_end_char(key, '/'), '/')
}

/// The directories that must be there before a key is written, outermost first.
pub fn parent_dirs(key: &str) -> (r: Vec<WalkStep>)
    ensures
        r@.len() == key_segments(key@).len() - 1,
        forall|i: int|
            0 <= i < r@.len() ==> (#[trigger] r@[i]).path@ == walked(
                key_segments(key@),
                (i + 1) as nat,
            ) && r@[i].name@ == key_segments(key@)[i],
{
    let trimmed = text::trim_end(key, '/');
    let segments = text::split(trimmed.as_str(), '/');
    let r = steps(&segments, segments.len() - 1);
    assert forall|i: int| 0 <= i < r@.len() implies (#[trigger] r@[i]).name@ == key_segments(
        key@,
    )[i] by {
        assert(text::views(segments@)[i] == segments@[i]@);
    }
    r
}

/// The directories on the way to a directory and that directory itself,
/// outermost first; none for the root.
pub fn dirs_to(path: &str) -> (r: Vec<WalkStep>)
    ensures
        ({
            let trimmed = text::trim_char(path@, '/');
            let segments = text::split_on(trimmed, '/');
            if trimmed.len() == 0 {
                r@.len() == 0
            } else {
                &&& r@.len() == segments.len()
                &&& forall|i: int|
                    0 <= i < r@.len() ==> (#[trigger] r@[i]).path@ == walked(
                        segments,
                        (i + 1) as nat,
                    ) && r@[i].name@ == segments[i]
            }
        }),
{
    let trimmed = text::trim_both(path, '/');
    if trimmed.as_str().is_empty() {
        return Vec::new();
    }
    let segments = text::split(trimmed.as_str(), '/');
    let r = steps(&segments, segments.len());
    assert forall|i: int| 0 <= i < r@.len() implies (#[trigger] r@[i]).name@ == text::split_on(
        trimmed@,
        '/',
    )[i] by {
        assert(text::views(segments@)[i] == segments@[i]@);
    }
    r
}

/// Along a path without empty segments every directory is the first segments of
/// the path, joined.
pub proof fn law_walk_joins(segments: Seq<Seq<char>>, k: nat)
    requires
        0 < k <= segments.len(),
        forall|i: int| 0 <= i < segments.len() ==> (#[trigger] segments[i]).len() > 0,
    ensures
        walked(segments, k) == text::join_with(segments.take(k as int), '/'),
        walked(segments, k).len() > 0,
    decreases k,
{
    let parts = segments.take(k as int);
    assert(segments[k - 1].len() > 0);
    if k == 1 {
        assert(walked(segments, 0).len() == 0);
        assert(parts[0] == segments[0]);
    } else {
        law_walk_joins(segments, (k - 1) as nat);
        assert(parts.drop_last() =~= segments.take(k - 1));
        assert(parts.last() == segments[k - 1]);
    }
}

/// The directory and the name of a key, slashes at its end aside; a key at the
/// root has no directory.
pub fn split_key(key: &str) -> (r: (Option<String>, String))
    ensures
        ({
            let trimmed = text::trim_end_char(key@, '/');
            let at = text::last_at(trimmed, '/');
            &&& match r.0 {
                Some(dir) => at >= 0 && dir@ == trimmed.take(at),
                None => at < 0,
            }
            &&& r.1@ == trimmed.skip(at + 1)
        }),
{
    let trimmed = text::trim_end(key, '/');
    let chars = text::chars_of(trimmed.as_str());
    assert(chars@.take(chars@.len() as int) =~= chars@);
    match text::rfind(&chars, chars.len(), '/') {
        Some(at) => {
            let dir = text::string_of(&chars, 0, at);
            let name = text::string_of(&chars, at + 1, chars.len());
            assert(dir@ =~= trimmed@.take(at as int));
            assert(name@ =~= trimmed@.skip(at + 1));
            (Some(dir), name)
        },
        None => {
            assert(trimmed@.skip(0) =~= trimmed@);
            (None, trimmed)
        },
    }
}

/// A walk through all directories below one.
#[derive(Debug)]
pub struct TreeWalk {
    queue: Vec<String>,
    order: Vec<String>,
    files: Vec<RawObject>,
}

/// A walk through all directories below one.
pub struct TreeView {
    /// The directories to list, the next one last.
    pub queue: Seq<Seq<char>>,
    /// The directories that were listed, in that order.
    pub order: Seq<Seq<char>>,
    /// The files that were found.
    pub files: Seq<RawView>,
}

impl View for TreeWalk {
    type V = TreeView;

    closed spec fn view(&self) -> TreeView {
        TreeView {
            queue: text::views(self.queue@),
            order: text::views(self.order@),
            files: entries::raw_views(self.files@),
        }
    }
}

/// The directories among listed objects.
pub open spec fn dirs_among(raw: Seq<RawView>) -> Seq<Seq<char>>
    decreases raw.len(),
{
    if raw.len() == 0 {
        Seq::empty()
    } else if raw.last().is_prefix {
        dirs_among(raw.drop_last()).push(raw.last().key)
    } else {
        dirs_among(raw.drop_last())
    }
}

/// The files among listed objects.
pub open spec fn files_among(raw: Seq<RawView>) -> Seq<RawView>
    decreases raw.len(),
{
    if raw.len() == 0 {
        Seq::empty()
    } else if raw.last().is_prefix {
        files_among(raw.drop_last())
    } else {
        files_among(raw.drop_last()).push(raw.last())
    }
}

impl TreeWalk {
    /// Starts at a directory.
    pub fn new(prefix: &str) -> (r: Self)
        ensures
            r@ == (TreeView {
                queue: seq![prefix@],
                order: Seq::empty(),
                files: Seq::empty(),
            }),
    {
        let mut queue: Vec<String> = Vec::new();
        queue.push(prefix.to_string());
        let r = TreeWalk { queue, order: Vec::new(), files: Vec::new() };
        assert(r@.queue =~= seq![prefix@]);
        assert(r@.order =~= Seq::empty());
        assert(r@.files =~= Seq::empty());
        r
    }

    /// Takes the next directory to list, if there is one.
    pub fn next_dir(&mut self) -> (r: Option<String>)
        ensures
            match r {
                Some(dir) => old(self)@.queue.len() > 0 && dir@ == old(self)@.queue.last()
                    && final(self)@ == (TreeView {
                    queue: old(self)@.queue.drop_last(),
                    order: old(self)@.order.push(dir@),
                    files: old(self)@.files,
                }),
                None => old(self)@.queue.len() == 0 && final(self)@ == old(self)@,
            },
    {
        match self.queue.pop() {
            Some(dir) => {
                self.order.push(dir.clone());
                assert(self@.queue =~= old(self)@.queue.drop_last());
                assert(self@.order =~= old(self)@.order.push(dir@));
                Some(dir)
            },
            None => None,
        }
    }

    /// Takes in what was listed: directories are to be listed, files are kept.
    pub fn listed(&mut self, raw: &Vec<RawObject>)
        ensures
            final(self)@ == (TreeView {
                queue: old(self)@.queue + dirs_among(entries::raw_views(raw@)),
                order: old(self)@.order,
                files: old(self)@.files + files_among(entries::raw_views(raw@)),
            }),
    {
        let ghost views = entries::raw_views(raw@);
        let ghost start = self@;
        let mut i: usize = 0;
        assert(views.take(0) =~= Seq::empty());
        assert(start.queue + Seq::<Seq<char>>::empty() =~= start.queue);
        assert(start.files + Seq::<RawView>::empty() =~= start.files);
        while i < raw.len()
            invariant
                i <= raw.len(),
                views == entries::raw_views(raw@),
                self@.order == start.order,
                self@.queue == start.queue + dirs_among(views.take(i as int)),
                self@.files == start.files + files_among(views.take(i as int)),
            decreases raw.len() - i,
        {
            let ghost before = self@;
            assert(views.take(i as int + 1).drop_last() =~= views.take(i as int));
            assert(views[i as int] == raw@[i as int]@);
            if raw[i].is_prefix {
                self.queue.push(raw[i].key.clone());
                assert(self@.queue =~= before.queue.push(views[i as int].key));
                assert((start.queue + dirs_among(views.take(i as int))).push(views[i as int].key)
                    =~= start.queue + dirs_among(views.take(i as int + 1)));
            } else {
                self.files.push(raw[i].copy());
                assert(self@.files =~= before.files.push(views[i as int]));
                assert((start.files + files_among(views.take(i as int))).push(views[i as int])
                    =~= start.files + files_among(views.take(i as int + 1)));
            }
            i += 1;
        }
        assert(views.take(i as int) =~= views);
    }

    /// The files that were found.
    pub fn files(self) -> (r: Vec<RawObject>)
        ensures
            entries::raw_views(r@) == self@.files,
    {
        self.files
    }

    /// The directories that were listed, the last one first: in this order each
    /// is empty when its turn to be removed comes, as what was found in it was
    /// listed after it.
    pub fn removal_order(&self) -> (r: Vec<String>)
        ensures
            text::views(r@) == self@.order.reverse(),
    {
        let ghost order = self@.order;
        let mut out: Vec<String> = Vec::new();
        let mut i: usize = self.order.len();
        while i > 0
            invariant
                i <= self.order.len(),
                order == text::views(self.order@),
                out@.len() == order.len() - i,
                forall|j: int|
                    0 <= j < out@.len() ==> (#[trigger] out@[j])@ == order[order.len() - 1 - j],
            decreases i,
        {
            i -= 1;
            out.push(self.order[i].clone());
        }
        assert(text::views(out@) =~= order.reverse());
        out
    }
}

/// Listing loses nothing: every object is among the directories or among the
/// files.
pub proof fn law_listed_is_kept(raw: Seq<RawView>)
    ensures
        dirs_among(raw).len() + files_among(raw).len() == raw.len(),
        forall|i: int|
            0 <= i < raw.len() ==> if (#[trigger] raw[i]).is_prefix {
                dirs_among(raw).contains(raw[i].key)
            } else {
                files_among(raw).contains(raw[i])
            },
    decreases raw.len(),
{
    if raw.len() > 0 {
        let front = raw.drop_last();
        law_listed_is_kept(front);
        let last = raw.last();
        assert forall|i: int| 0 <= i < raw.len() implies if (#[trigger] raw[i]).is_prefix {
            dirs_among(raw).contains(raw[i].key)
        } else {
            files_among(raw).contains(raw[i])
        } by {
            if i < front.len() {
                assert(front[i] == raw[i]);
                if raw[i].is_prefix {
                    let d = dirs_among(front);
                    let k = choose|k: int| 0 <= k < d.len() && d[k] == raw[i].key;
                    assert(dirs_among(raw)[k] == raw[i].key);
                } else {
                    let f = files_among(front);
                    let k = choose|k: int| 0 <= k < f.len() && f[k] == raw[i];
                    assert(files_among(raw)[k] == raw[i]);
                }
            } else if last.is_prefix {
                assert(dirs_among(raw)[dirs_among(raw).len() - 1] == last.key);
            } else {
                assert(files_among(raw)[files_among(raw).len() - 1] == last);
            }
        }
    }
}

/// The key that an object has after the tree it lies in was moved.
pub open spec fn moved_key(key: Seq<char>, from: Seq<char>, to: Seq<char>) -> Seq<char> {
    if from.is_prefix_of(key) {
        to + key.skip(from.len() as int)
    } else {
        to + key
    }
}

/// The key that an object has after the tree it lies in was moved.
pub fn new_key(key: &str, from: &str, to: &str) -> (r: String)
    ensures
        r@ == moved_key(key@, from@, to@),
{
    match text::strip_prefix(key, from) {
        Some(suffix) => text::concat(to, suffix.as_str()),
        None => text::concat(to, key),
    }
}

/// Moving a tree and moving it back gives every key back.
pub proof fn law_move_back(key: Seq<char>, from: Seq<char>, to: Seq<char>)
    requires
        from.is_prefix_of(key),
    ensures
        moved_key(moved_key(key, from, to), to, from) == key,
{
    let suffix = key.skip(from.len() as int);
    let there = moved_key(key, from, to);
    assert(there =~= to + suffix);
    assert(to.is_prefix_of(there)) by {
        assert(there.take(to.len() as int) =~= to);
    }
    assert(there.skip(to.len() as int) =~= suffix);
    assert(from + suffix =~= key);
}

/// Two objects of a tree do not become one when the tree is moved.
pub proof fn law_move_keeps_apart(a: Seq<char>, b: Seq<char>, from: Seq<char>, to: Seq<char>)
    requires
        from.is_prefix_of(a),
        from.is_prefix_of(b),
        moved_key(a, from, to) == moved_key(b, from, to),
    ensures
        a == b,
{
    law_move_back(a, from, to);
    law_move_back(b, from, to);
}

/// The name of an upload that a backend keeps open.
pub fn upload_id(backend: &str, number: u64) -> (r: String)
    ensures
        r@ == backend@.push('-') + text::decimal(number as nat),
{
    let mut out = backend.to_string();
    out.push('-');
    let digits = text::decimal_of(number);
    out.append(digits.as_str());
    out
}

/// A listing holds the names of the directory in the server's order, without the
/// directory itself and the one above. The key of each is its name below the prefix,
/// with a slash behind it where it is a directory, and only a file has a size.
pub proof fn law_children_have_their_keys(prefix: Seq<char>, names: Seq<ListedName>)
    ensures
        ({
            let shown = names.filter(|n: ListedName| n.name@ != seq!['.'] && n.name@ != seq!['.', '.']);
            let children = children_of(prefix, names);
            &&& children.len() == shown.len()
            &&& forall|i: int|
                0 <= i < shown.len() ==> {
                    let n = shown[i];
                    let o = #[trigger] children[i];
                    &&& n.is_dir ==> o.key == prefix + n.name@ + seq!['/'] && o.size == 0
                    &&& !n.is_dir ==> o.key == prefix + n.name@
                    &&& !n.is_dir && n.size is Some ==> Some(o.size) == n.size
                    &&& !n.is_dir && n.size is None ==> o.size == 0
                    &&& o.is_prefix == n.is_dir
                    &&& o.modified == n.modified
                }
        }),
    decreases names.len(),
{
    reveal(Seq::filter);
    reveal_strlit(".");
    reveal_strlit("..");
    assert("."@ =~= seq!['.']);
    assert(".."@ =~= seq!['.', '.']);
    if names.len() > 0 {
        let n = names.last();
        law_children_have_their_keys(prefix, names.drop_last());
        assert((prefix + n.name@).push('/') =~= prefix + n.name@ + seq!['/']);
    }
}

/// What a directory holds is parted into directories, which are listed in turn, and
/// files, in the order of the listing.
pub proof fn law_directories_are_listed_in_turn(raw: Seq<RawView>)
    ensures
        files_among(raw) == raw.filter(|o: RawView| !o.is_prefix),
        dirs_among(raw).len() == raw.filter(|o: RawView| o.is_prefix).len(),
        forall|i: int|
            0 <= i < dirs_among(raw).len() ==> #[trigger] dirs_among(raw)[i] == raw.filter(
                |o: RawView| o.is_prefix,
            )[i].key,
    decreases raw.len(),
{
    reveal(Seq::filter);
    if raw.len() > 0 {
        law_directories_are_listed_in_turn(raw.drop_last());
    } else {
        assert(files_among(raw) =~= raw.filter(|o: RawView| !o.is_prefix));
    }
}

/// When a tree is moved, what stood below it at some path stands below the new place
/// at the same path.
pub proof fn law_move_keeps_the_path(from: Seq<char>, to: Seq<char>, rest: Seq<char>)
    ensures
        moved_key(from + rest, from, to) == to + rest,
{
    assert((from + rest).take(from.len() as int) =~= from);
    assert(from.is_prefix_of(from + rest));
    assert((from + rest).skip(from.len() as int) =~= rest);
}

/// The directories to a key are made from the outermost on: each is the one before it
/// with one more segment of the key, and the last but one segment closes the walk.
pub proof fn law_walk_goes_one_deeper(segments: Seq<Seq<char>>, k: nat)
    requires
        k < segments.len(),
        forall|i: int| 0 <= i < segments.len() ==> (#[trigger] segments[i]).len() > 0,
    ensures
        k == 0 ==> walked(segments, 1) == segments[0],
        k > 0 ==> walked(segments, (k + 1) as nat) == walked(segments, k) + seq!['/']
            + segments[k as int],
{
    assert(segments[k as int].len() > 0);
    if k > 0 {
        law_walk_joins(segments, k);
        assert(walked(segments, k).push('/') =~= walked(segments, k) + seq!['/']);
    } else {
        assert(walked(segments, 0).len() == 0);
    }
}

/// The segments of a key make it up again, slashes at its end aside, and hold none.
pub proof fn law_segments_make_the_key(key: Seq<char>)
    ensures
        text::join_with(key_segments(key), '/') == text::trim_end_char(key, '/'),
        key_segments(key).len() > 0,
        forall|i: int|
            0 <= i < key_segments(key).len() ==> !(#[trigger] key_segments(key)[i]).contains('/'),
{
    let t = text::trim_end_char(key, '/');
    text::lemma_join_of_split(t, '/');
    text::lemma_split_nonempty(t, '/');
    text::lemma_split_pieces(t, '/');
}

} // verus!
