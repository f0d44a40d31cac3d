//! The rows of the transfer list.

use crate::worker::messages;
use crate::worker::messages::{FileProgress, TrackView, TransferKind};
use vstd::prelude::*;
use vstd::string::*;

verus! {

/// How a transfer stands.
#[derive(Clone, Copy, Debug, Default, PartialEq, Eq, Structural)]
pub enum ItemState {
    #[default]
    Queued,
    Active,
    Done,
    Failed,
    Cancelled,
}

/// One row. Its speed is measured elsewhere.
#[derive(Debug)]
pub struct TransferItem {
    id: u64,
    kind: TransferKind,
    name: String,
    total: u64,
    done: u64,
    state: ItemState,
}

/// One row.
pub struct ItemView {
    pub id: u64,
    pub kind: TransferKind,
    pub name: Seq<char>,
    pub total: u64,
    pub done: u64,
    pub state: ItemState,
}

impl View for TransferItem {
    type V = ItemView;

    closed spec fn view(&self) -> ItemView {
        ItemView {
            id: self.id,
            kind: self.kind,
            name: self.name@,
            total: self.total,
            done: self.done,
            state: self.state,
        }
    }
}

/// A row of which nothing was transferred yet.
pub open spec fn queued(id: u64, kind: TransferKind, name: Seq<char>, total: u64) -> ItemView {
    ItemView { id, kind, name, total, done: 0, state: ItemState::Queued }
}

/// A row after progress.
pub open spec fn active(item: ItemView, done: u64) -> ItemView {
    if item.state == ItemState::Cancelled {
        item
    } else {
        ItemView { done, state: ItemState::Active, ..item }
    }
}

/// A row after its file was settled.
pub open spec fn finished(item: ItemView, ok: bool) -> ItemView {
    if item.state == ItemState::Cancelled {
        item
    } else if ok {
        ItemView { done: item.total, state: ItemState::Done, ..item }
    } else {
        ItemView { state: ItemState::Failed, ..item }
    }
}

/// A row that the user cancelled.
pub open spec fn cancelled(item: ItemView) -> ItemView {
    ItemView { state: ItemState::Cancelled, ..item }
}

impl TransferItem {
    /// A row of which nothing was transferred yet.
    pub fn new(id: u64, kind: TransferKind, name: &str, total: u64) -> (r: Self)
        ensures
            r@ == queued(id, kind, name@, total),
    {
        TransferItem {
            id,
            kind,
            name: name.to_string(),
            total,
            done: 0,
            state: ItemState::Queued,
        }
    }

    pub fn id(&self) -> (r: u64)
        ensures
            r == self@.id,
    {
        self.id
    }

    pub fn kind(&self) -> (r: TransferKind)
        ensures
            r == self@.kind,
    {
        self.kind
    }

    pub fn name(&self) -> (r: String)
        ensures
            r@ == self@.name,
    {
        self.name.clone()
    }

    pub fn total(&self) -> (r: u64)
        ensures
            r == self@.total,
    {
        self.total
    }

    pub fn done(&self) -> (r: u64)
        ensures
            r == self@.done,
    {
        self.done
    }

    pub fn state(&self) -> (r: ItemState)
        ensures
            r == self@.state,
    {
        self.state
    }

    /// Live progress; passed over once the user has cancelled the row.
    pub fn set_active(&mut self, done: u64)
        ensures
            final(self)@ == active(old(self)@, done),
    {
        if self.state != ItemState::Cancelled {
            self.done = done;
            self.state = ItemState::Active;
        }
    }

    /// The outcome; passed over once the user has cancelled the row.
    pub fn set_finished(&mut self, ok: bool)
        ensures
            final(self)@ == finished(old(self)@, ok),
    {
        if self.state != ItemState::Cancelled {
            if ok {
                self.done = self.total;
                self.state = ItemState::Done;
            } else {
                self.state = ItemState::Failed;
            }
        }
    }

    /// The user has cancelled the row.
    pub fn set_cancelled(&mut self)
        ensures
            final(self)@ == cancelled(old(self)@),
    {
        self.state = ItemState::Cancelled;
    }
}

/// Whatever the worker reports of a row that the user has cancelled, it stays
/// cancelled and as it was.
pub proof fn law_cancelled_stays(item: ItemView, done: u64, ok: bool)
    ensures
        active(cancelled(item), done) == cancelled(item),
        finished(cancelled(item), ok) == cancelled(item),
{
}

/// The rows of a list.
pub open spec fn item_views(list: Seq<TransferItem>) -> Seq<ItemView> {
    list.map_values(|i: TransferItem| i@)
}

/// Rows for files that were not begun.
pub open spec fn rows_of(files: Seq<TrackView>) -> Seq<ItemView> {
    files.map_values(|f: TrackView| queued(f.id, f.kind, f.name, f.total))
}

/// The rows after the progress of one file.
pub open spec fn with_progress(rows: Seq<ItemView>, file: TrackView) -> Seq<ItemView> {
    rows.map_values(
        |r: ItemView|
            if r.id == file.id {
                active(r, file.done)
            } else {
                r
            },
    )
}

/// The rows after the progress of the first `k` files.
pub open spec fn with_all_progress(rows: Seq<ItemView>, files: Seq<TrackView>) -> Seq<ItemView>
    decreases files.len(),
{
    if files.len() == 0 {
        rows
    } else {
        with_progress(with_all_progress(rows, files.drop_last()), files.last())
    }
}

/// The rows after a file was settled.
pub open spec fn with_outcome(rows: Seq<ItemView>, outcome: Option<(u64, bool)>) -> Seq<ItemView> {
    match outcome {
        Some((id, ok)) => rows.map_values(
            |r: ItemView|
                if r.id == id {
                    finished(r, ok)
                } else {
                    r
                },
        ),
        None => rows,
    }
}

/// The rows of the transfer list.
#[derive(Debug)]
pub struct TransferList {
    pub rows: Vec<TransferItem>,
}

impl View for TransferList {
    type V = Seq<ItemView>;

    open spec fn view(&self) -> Seq<ItemView> {
        item_views(self.rows@)
    }
}

impl TransferList {
    /// No rows.
    pub fn new() -> (r: Self)
        ensures
            r@ == Seq::<ItemView>::empty(),
    {
        let r = TransferList { rows: Vec::new() };
        assert(r@ =~= Seq::empty());
        r
    }

    /// A batch was started: its files take the place of all rows.
    pub fn started(&mut self, files: &Vec<FileProgress>)
        ensures
            final(self)@ == rows_of(messages::track_views(files@)),
    {
        self.rows = Vec::new();
        assert(self@ =~= Seq::empty());
        self.extended(files);
        assert(self@ =~= rows_of(messages::track_views(files@)));
    }

    /// Files joined the batch: their rows are added.
    pub fn extended(&mut self, files: &Vec<FileProgress>)
        ensures
            final(self)@ == old(self)@ + rows_of(messages::track_views(files@)),
    {
        let ghost start = self@;
        let ghost all = rows_of(messages::track_views(files@));
        let mut i: usize = 0;
        assert(start + all.take(0) =~= start);
        while i < files.len()
            invariant
                i <= files.len(),
                all == rows_of(messages::track_views(files@)),
                self@ == start + all.take(i as int),
            decreases files.len() - i,
        {
            let f = &files[i];
            let ghost before = self@;
            self.rows.push(TransferItem::new(f.id, f.kind, f.name.as_str(), f.total));
            assert(self@ =~= before.push(all[i as int]));
            assert(start + all.take(i as int + 1) =~= (start + all.take(i as int)).push(
                all[i as int],
            ));
            i += 1;
        }
        assert(all.take(i as int) =~= all);
    }

    fn advance(&mut self, file: &FileProgress)
        ensures
            final(self)@ == with_progress(old(self)@, file@),
    {
        let ghost start = self@;
        let mut i: usize = 0;
        while i < self.rows.len()
            invariant
                i <= self.rows.len(),
                self@.len() == start.len(),
                forall|j: int| 0 <= j < i ==> #[trigger] self@[j] == with_progress(start, file@)[j],
                forall|j: int| i <= j < self@.len() ==> #[trigger] self@[j] == start[j],
            decreases self.rows.len() - i,
        {
            let ghost before = self@;
            assert(before[i as int] == self.rows@[i as int]@);
            if self.rows[i].id == file.id {
                self.rows[i].set_active(file.done);
            }
            assert(self@ =~= before.update(i as int, with_progress(start, file@)[i as int]));
            i += 1;
        }
        assert(self@ =~= with_progress(start, file@));
    }

    /// Files have come further, and perhaps one was settled.
    pub fn progressed(&mut self, files: &Vec<FileProgress>, outcome: Option<(u64, bool)>)
        ensures
            final(self)@ == with_outcome(
                with_all_progress(old(self)@, messages::track_views(files@)),
                outcome,
            ),
    {
        let ghost start = self@;
        let ghost views = messages::track_views(files@);
        let mut i: usize = 0;
        assert(views.take(0) =~= Seq::empty());
        while i < files.len()
            invariant
                i <= files.len(),
                views == messages::track_views(files@),
                self@ == with_all_progress(start, views.take(i as int)),
            decreases files.len() - i,
        {
            assert(views.take(i as int + 1).drop_last() =~= views.take(i as int));
            self.advance(&files[i]);
            i += 1;
        }
        assert(views.take(i as int) =~= views);
        if let Some((id, ok)) = outcome {
            let ghost mid = self@;
            let mut k: usize = 0;
            while k < self.rows.len()
                invariant
                    k <= self.rows.len(),
                    outcome == Some((id, ok)),
                    self@.len() == mid.len(),
                    forall|j: int|
                        0 <= j < k ==> #[trigger] self@[j] == with_outcome(mid, outcome)[j],
                    forall|j: int| k <= j < self@.len() ==> #[trigger] self@[j] == mid[j],
                decreases self.rows.len() - k,
            {
                let ghost before = self@;
                assert(before[k as int] == self.rows@[k as int]@);
                if self.rows[k].id == id {
                    self.rows[k].set_finished(ok);
                }
                assert(self@ =~= before.update(k as int, with_outcome(mid, outcome)[k as int]));
                k += 1;
            }
            assert(self@ =~= with_outcome(mid, outcome));
        }
    }

    /// The user cancels a file.
    pub fn cancelled(&mut self, id: u64)
        ensures
            final(self)@ == old(self)@.map_values(
                |r: ItemView|
                    if r.id == id {
                        cancelled(r)
                    } else {
                        r
                    },
            ),
    {
        let ghost start = self@;
        let ghost f = |r: ItemView|
            if r.id == id {
                cancelled(r)
            } else {
                r
            };
        let mut i: usize = 0;
        while i < self.rows.len()
            invariant
                i <= self.rows.len(),
                self@.len() == start.len(),
                f == (|r: ItemView|
                    if r.id == id {
                        cancelled(r)
                    } else {
                        r
                    }),
                forall|j: int| 0 <= j < i ==> #[trigger] self@[j] == f(start[j]),
                forall|j: int| i <= j < self@.len() ==> #[trigger] self@[j] == start[j],
            decreases self.rows.len() - i,
        {
            let ghost before = self@;
            assert(before[i as int] == self.rows@[i as int]@);
            if self.rows[i].id == id {
                self.rows[i].set_cancelled();
            }
            assert(self@ =~= before.update(i as int, f(start[i as int])));
            i += 1;
        }
        assert(self@ =~= start.map_values(f));
    }

    /// The batch is over.
    pub fn finished(&mut self)
        ensures
            final(self)@ == Seq::<ItemView>::empty(),
    {
        self.rows = Vec::new();
        assert(self@ =~= Seq::empty());
    }
}

/// The share of a batch that is done, as a fraction: by bytes, or by files where
/// there are no bytes to transfer. Never more than the whole.
pub fn done_share(done: u64, failed: u64, bytes: u64, total_files: u64, total_bytes: u64) -> (r: (
    u64,
    u64,
))
    requires
        done + failed <= u64::MAX,
    ensures
        ({
            let whole = if total_bytes > 0 {
                total_bytes
            } else if total_files > 0 {
                total_files
            } else {
                1
            };
            let part = if total_bytes > 0 {
                bytes as int
            } else {
                done + failed
            };
            &&& r.1 == whole
            &&& r.0 == if part < whole {
                part
            } else {
                whole as int
            }
        }),
        r.0 <= r.1,
        r.1 > 0,
{
    let (part, whole): (u64, u64) = if total_bytes > 0 {
        (bytes, total_bytes)
    } else if total_files > 0 {
        (done + failed, total_files)
    } else {
        (done + failed, 1)
    };
    if part < whole {
        (part, whole)
    } else {
        (whole, whole)
    }
}

/// A row is shown for each file that joins, in order, with nothing done. Progress and
/// outcome change the row of their file alone: it is active with the bytes that are
/// done, then done whole or failed where it stood.
pub proof fn law_rows_follow_their_files(
    rows: Seq<ItemView>,
    files: Seq<TrackView>,
    file: TrackView,
    ok: bool,
)
    ensures
        rows_of(files).len() == files.len(),
        forall|i: int|
            0 <= i < files.len() ==> {
                let r = #[trigger] rows_of(files)[i];
                &&& r.id == files[i].id
                &&& r.kind == files[i].kind
                &&& r.name == files[i].name
                &&& r.total == files[i].total
                &&& r.done == 0
                &&& r.state == ItemState::Queued
            },
        with_progress(rows, file).len() == rows.len(),
        with_outcome(rows, Some((file.id, ok))).len() == rows.len(),
        with_outcome(rows, None) == rows,
        forall|i: int|
            0 <= i < rows.len() ==> {
                let (r, p) = (rows[i], #[trigger] with_progress(rows, file)[i]);
                &&& p.id == r.id && p.kind == r.kind && p.name == r.name && p.total == r.total
                &&& r.id != file.id || r.state == ItemState::Cancelled ==> p == r
                &&& r.id == file.id && r.state != ItemState::Cancelled ==> p.done == file.done
                    && p.state == ItemState::Active
            },
        forall|i: int|
            0 <= i < rows.len() ==> {
                let (r, p) = (rows[i], #[trigger] with_outcome(rows, Some((file.id, ok)))[i]);
                &&& p.id == r.id && p.kind == r.kind && p.name == r.name && p.total == r.total
                &&& r.id != file.id || r.state == ItemState::Cancelled ==> p == r
                &&& r.id == file.id && r.state != ItemState::Cancelled ==> if ok {
                    p.state == ItemState::Done && p.done == r.total
                } else {
                    p.state == ItemState::Failed && p.done == r.done
                }
            },
{
}

/// A row that the user cancels is cancelled where it stood.
pub proof fn law_cancel_keeps_the_row(item: ItemView)
    ensures
        cancelled(item).state == ItemState::Cancelled,
        cancelled(item).id == item.id,
        cancelled(item).kind == item.kind,
        cancelled(item).name == item.name,
        cancelled(item).total == item.total,
        cancelled(item).done == item.done,
{
}

} // verus!
