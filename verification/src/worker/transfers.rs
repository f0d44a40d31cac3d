//! The one live batch of transfers and the progress of its files.
//!
//! Uploads and downloads share a batch: files that arrive while one is running
//! extend it. A batch is closed when its last file is settled.

use crate::settings::Settings;
use crate::text;
use crate::worker::messages;
use crate::worker::messages::{Event, FileProgress, TrackView, TransferKind};
use vstd::prelude::*;
use vstd::string::*;

verus! {

/// Where a file of this id stands, or would stand, in a list ordered by id.
pub open spec fn place(list: Seq<TrackView>, id: u64) -> int
    decreases list.len(),
{
    if list.len() == 0 {
        0
    } else if list.last().id < id {
        list.len() as int
    } else {
        place(list.drop_last(), id)
    }
}

/// Whether a file of this id is in a list ordered by id.
pub open spec fn tracked_in(list: Seq<TrackView>, id: u64) -> bool {
    place(list, id) < list.len() && list[place(list, id)].id == id
}

/// A list with a file put at its place, instead of the one of the same id.
pub open spec fn put(list: Seq<TrackView>, track: TrackView) -> Seq<TrackView> {
    let p = place(list, track.id);
    if tracked_in(list, track.id) {
        list.update(p, track)
    } else {
        list.insert(p, track)
    }
}

/// A list without the file of an id.
pub open spec fn dropped(list: Seq<TrackView>, id: u64) -> Seq<TrackView> {
    if tracked_in(list, id) {
        list.remove(place(list, id))
    } else {
        list
    }
}

/// A list in which the file of an id has come `n` bytes further.
pub open spec fn advanced(list: Seq<TrackView>, id: u64, n: u64) -> Seq<TrackView> {
    if tracked_in(list, id) {
        let p = place(list, id);
        list.update(p, TrackView { done: (list[p].done + n) as u64, ..list[p] })
    } else {
        list
    }
}

/// Whether the ids stand in order, each once.
pub open spec fn by_id(list: Seq<TrackView>) -> bool {
    forall|i: int, j: int|
        0 <= i < j < list.len() ==> (#[trigger] list[i]).id < (#[trigger] list[j]).id
}

/// `place` parts the smaller ids from the others.
pub proof fn lemma_place(list: Seq<TrackView>, id: u64)
    requires
        by_id(list),
    ensures
        0 <= place(list, id) <= list.len(),
        forall|i: int| 0 <= i < place(list, id) ==> (#[trigger] list[i]).id < id,
        forall|i: int| place(list, id) <= i < list.len() ==> (#[trigger] list[i]).id >= id,
    decreases list.len(),
{
    if list.len() > 0 {
        let front = list.drop_last();
        assert forall|i: int, j: int| 0 <= i < j < front.len() implies (#[trigger] front[i]).id < (
        #[trigger] front[j]).id by {
            assert(front[i] == list[i] && front[j] == list[j]);
        }
        lemma_place(front, id);
        assert forall|i: int| 0 <= i < place(list, id) implies (#[trigger] list[i]).id < id by {
            if i < front.len() {
                assert(front[i] == list[i]);
                assert(list[i].id < list[list.len() - 1].id);
            }
        }
        assert forall|i: int| place(list, id) <= i < list.len() implies (#[trigger] list[i]).id
            >= id by {
            if i < front.len() {
                assert(front[i] == list[i]);
            }
        }
    }
}

/// A file that is put in is found, every other file stays as it was, and the
/// list stays in the order of ids.
pub proof fn law_put_is_found(list: Seq<TrackView>, track: TrackView)
    requires
        by_id(list),
    ensures
        by_id(put(list, track)),
        put(list, track).contains(track),
        forall|t: TrackView|
            t.id != track.id ==> (#[trigger] put(list, track).contains(t) <==> list.contains(t)),
{
    lemma_place(list, track.id);
    let p = place(list, track.id);
    let after = put(list, track);
    assert(after[p] == track);
    let found = tracked_in(list, track.id);
    assert forall|i: int, j: int| 0 <= i < j < after.len() implies (#[trigger] after[i]).id < (
    #[trigger] after[j]).id by {
        let a = if found || i <= p { i } else { i - 1 };
        let b = if found || j <= p { j } else { j - 1 };
        if i != p {
            assert(after[i] == list[a]);
        }
        if j != p {
            assert(after[j] == list[b]);
        }
    }
    assert forall|t: TrackView| t.id != track.id implies (#[trigger] after.contains(t)
        <==> list.contains(t)) by {
        if after.contains(t) {
            let i = choose|i: int| 0 <= i < after.len() && after[i] == t;
            let a = if found || i <= p { i } else { i - 1 };
            assert(list[a] == t);
        }
        if list.contains(t) {
            let a = choose|a: int| 0 <= a < list.len() && list[a] == t;
            let i = if found || a < p { a } else { a + 1 };
            assert(after[i] == t);
        }
    }
}

/// A file that is dropped is gone, every other file stays as it was, and the
/// list stays in the order of ids.
pub proof fn law_dropped_is_gone(list: Seq<TrackView>, id: u64)
    requires
        by_id(list),
    ensures
        by_id(dropped(list, id)),
        forall|t: TrackView| t.id == id ==> !(#[trigger] dropped(list, id).contains(t)),
        forall|t: TrackView|
            t.id != id ==> (#[trigger] dropped(list, id).contains(t) <==> list.contains(t)),
{
    lemma_place(list, id);
    let p = place(list, id);
    let after = dropped(list, id);
    let found = tracked_in(list, id);
    assert forall|i: int, j: int| 0 <= i < j < after.len() implies (#[trigger] after[i]).id < (
    #[trigger] after[j]).id by {
        let a = if !found || i < p { i } else { i + 1 };
        let b = if !found || j < p { j } else { j + 1 };
        assert(after[i] == list[a]);
        assert(after[j] == list[b]);
    }
    assert forall|t: TrackView| #[trigger] after.contains(t) implies list.contains(t) && t.id
        != id by {
        let i = choose|i: int| 0 <= i < after.len() && after[i] == t;
        let a = if !found || i < p { i } else { i + 1 };
        assert(list[a] == t);
        if found && t.id == id {
            assert(list[p].id == id);
            if a < p {
                assert(list[a].id < list[p].id);
            } else {
                assert(list[p].id < list[a].id);
            }
        }
    }
    assert forall|t: TrackView| t.id != id implies (#[trigger] after.contains(t) <==> list.contains(
        t,
    )) by {
        if list.contains(t) {
            let a = choose|a: int| 0 <= a < list.len() && list[a] == t;
            let i = if !found || a < p { a } else { a - 1 };
            assert(after[i] == t);
        }
    }
}

/// The progress of one batch.
#[derive(Debug)]
pub struct Progress {
    pub uploaded: u64,
    pub downloaded: u64,
    pub failed: u64,
    pub bytes: u64,
    /// When the last report on bytes was made, in milliseconds of the batch.
    pub last_emit: u64,
    active: Vec<FileProgress>,
}

/// The progress of one batch.
pub struct ProgressView {
    pub uploaded: u64,
    pub downloaded: u64,
    pub failed: u64,
    pub bytes: u64,
    pub last_emit: u64,
    /// The files under way, in the order of their ids.
    pub active: Seq<TrackView>,
}

impl View for Progress {
    type V = ProgressView;

    closed spec fn view(&self) -> ProgressView {
        ProgressView {
            uploaded: self.uploaded,
            downloaded: self.downloaded,
            failed: self.failed,
            bytes: self.bytes,
            last_emit: self.last_emit,
            active: messages::track_views(self.active@),
        }
    }
}

/// The progress of a batch of which nothing has happened yet.
pub open spec fn no_progress() -> ProgressView {
    ProgressView {
        uploaded: 0,
        downloaded: 0,
        failed: 0,
        bytes: 0,
        last_emit: 0,
        active: Seq::empty(),
    }
}

/// One more, counted as a machine counts.
pub open spec fn bumped(n: u64, by: u64) -> u64 {
    if n + by > u64::MAX {
        (n + by - 0x1_0000_0000_0000_0000) as u64
    } else {
        (n + by) as u64
    }
}

/// The progress after a file is settled.
pub open spec fn settled(p: ProgressView, id: u64, kind: TransferKind, ok: bool) -> ProgressView {
    let q = ProgressView { active: dropped(p.active, id), ..p };
    if !ok {
        ProgressView { failed: bumped(p.failed, 1), ..q }
    } else {
        match kind {
            TransferKind::Upload => ProgressView { uploaded: bumped(p.uploaded, 1), ..q },
            TransferKind::Download => ProgressView { downloaded: bumped(p.downloaded, 1), ..q },
        }
    }
}

/// Whether an event reports this progress.
pub open spec fn reports(e: Event, p: ProgressView, finished: Option<(u64, bool)>) -> bool {
    e matches Event::TransferProgress {
        done_files,
        failed_files,
        bytes_done,
        files,
        finished: f,
    } && {
        &&& done_files == p.uploaded + p.downloaded
        &&& failed_files == p.failed
        &&& bytes_done == p.bytes
        &&& messages::track_views(files@) == p.active
        &&& f == finished
    }
}

impl Progress {
    /// The progress of a new batch.
    pub fn new() -> (r: Self)
        ensures
            r@ == no_progress(),
    {
        let r = Progress {
            uploaded: 0,
            downloaded: 0,
            failed: 0,
            bytes: 0,
            last_emit: 0,
            active: Vec::new(),
        };
        assert(r@.active =~= Seq::empty());
        r
    }

    /// The number of files that were transferred.
    pub fn done_files(&self) -> (r: u64)
        requires
            self@.uploaded + self@.downloaded <= u64::MAX,
        ensures
            r == self@.uploaded + self@.downloaded,
    {
        self.uploaded + self.downloaded
    }

    /// Where a file stands or would stand, and whether it does.
    fn find(&self, id: u64) -> (r: (usize, bool))
        ensures
            r.0 == place(self@.active, id),
            r.0 <= self@.active.len(),
            r.1 == tracked_in(self@.active, id),
    {
        let ghost list = self@.active;
        let mut p: usize = self.active.len();
        assert(list.take(p as int) =~= list);
        while p > 0 && self.active[p - 1].id >= id
            invariant
                p <= self.active.len(),
                list == messages::track_views(self.active@),
                place(list.take(p as int), id) == place(list, id),
            decreases p,
        {
            assert(list.take(p as int).last() == list[p - 1]);
            assert(list.take(p as int).drop_last() =~= list.take(p - 1));
            p -= 1;
        }
        assert(p > 0 ==> list.take(p as int).last() == list[p - 1]);
        (p, p < self.active.len() && self.active[p].id == id)
    }

    fn track(&mut self, file: FileProgress)
        ensures
            final(self)@ == (ProgressView { active: put(old(self)@.active, file@), ..old(self)@ }),
    {
        let (p, found) = self.find(file.id);
        let ghost t = file@;
        if found {
            self.active.set(p, file);
        } else {
            self.active.insert(p, file);
        }
        assert(self@.active =~= put(old(self)@.active, t));
    }

    /// A file is under way.
    pub fn file_start(&mut self, id: u64, kind: TransferKind, name: &str, total: u64)
        ensures
            final(self)@ == (ProgressView {
                active: put(old(self)@.active, TrackView { id, name: name@, kind, done: 0, total }),
                ..old(self)@
            }),
    {
        self.file_resume(id, kind, name, total, 0);
    }

    /// A file is under way of which a part was done before.
    pub fn file_resume(
        &mut self,
        id: u64,
        kind: TransferKind,
        name: &str,
        total: u64,
        already_done: u64,
    )
        ensures
            final(self)@ == (ProgressView {
                active: put(
                    old(self)@.active,
                    TrackView { id, name: name@, kind, done: already_done, total },
                ),
                ..old(self)@
            }),
    {
        self.track(FileProgress { id, name: name.to_string(), kind, done: already_done, total });
    }

    /// The files under way, in the order of their ids.
    pub fn snapshot(&self) -> (r: Vec<FileProgress>)
        ensures
            messages::track_views(r@) == self@.active,
    {
        let mut out: Vec<FileProgress> = Vec::new();
        let mut i: usize = 0;
        while i < self.active.len()
            invariant
                i <= self.active.len(),
                out@.len() == i,
                forall|j: int| 0 <= j < i ==> (#[trigger] out@[j])@ == self.active@[j]@,
            decreases self.active.len() - i,
        {
            out.push(self.active[i].copy());
            i += 1;
        }
        assert(messages::track_views(out@) =~= self@.active);
        out
    }

    fn report(&self, finished: Option<(u64, bool)>) -> (r: Event)
        requires
            self@.uploaded + self@.downloaded <= u64::MAX,
        ensures
            reports(r, self@, finished),
    {
        Event::TransferProgress {
            done_files: self.done_files(),
            failed_files: self.failed,
            bytes_done: self.bytes,
            files: self.snapshot(),
            finished,
        }
    }

    /// A file is settled, well or not.
    pub fn file_done(&mut self, id: u64, kind: TransferKind, ok: bool) -> (r: Event)
        requires
            old(self)@.uploaded + old(self)@.downloaded < u64::MAX,
        ensures
            final(self)@ == settled(old(self)@, id, kind, ok),
            reports(r, final(self)@, Some((id, ok))),
    {
        let (p, found) = self.find(id);
        if found {
            self.active.remove(p);
        }
        assert(self@.active =~= dropped(old(self)@.active, id));
        if ok {
            match kind {
                TransferKind::Upload => {
                    self.uploaded = self.uploaded.wrapping_add(1);
                },
                TransferKind::Download => {
                    self.downloaded = self.downloaded.wrapping_add(1);
                },
            }
        } else {
            self.failed = self.failed.wrapping_add(1);
        }
        self.report(Some((id, ok)))
    }

    /// Bytes of a file were transferred. A report is due where the last one is
    /// at least a tenth of a second old.
    pub fn tick(&mut self, id: u64, n: u64, now: u64) -> (r: Option<Event>)
        requires
            old(self)@.uploaded + old(self)@.downloaded <= u64::MAX,
            tracked_in(old(self)@.active, id) ==> old(self)@.active[place(
                old(self)@.active,
                id,
            )].done + n <= u64::MAX,
        ensures
            final(self)@ == (ProgressView {
                bytes: bumped(old(self)@.bytes, n),
                active: advanced(old(self)@.active, id, n),
                last_emit: if now - old(self)@.last_emit >= 100 {
                    now
                } else {
                    old(self)@.last_emit
                },
                ..old(self)@
            }),
            r is Some <==> now - old(self)@.last_emit >= 100,
            r matches Some(e) ==> reports(e, final(self)@, None),
    {
        self.bytes = self.bytes.wrapping_add(n);
        let (p, found) = self.find(id);
        if found {
            let done: u64 = self.active[p].done + n;
            let file = FileProgress { done, ..self.active[p].copy() };
            self.active.set(p, file);
        }
        assert(self@.active =~= advanced(old(self)@.active, id, n));
        if now >= self.last_emit && now - self.last_emit >= 100 {
            self.last_emit = now;
            Some(self.report(None))
        } else {
            None
        }
    }
}


/// A file that is to be transferred: its id, the name to show and its size as
/// the transfer counts it.
#[derive(Clone, Debug)]
pub struct PlannedFile {
    pub id: u64,
    pub name: String,
    pub size: u64,
}

/// The first `k` sizes of a plan, summed.
pub open spec fn size_of(files: Seq<PlannedFile>, k: nat) -> nat
    decreases k,
{
    if k == 0 {
        0
    } else {
        size_of(files, (k - 1) as nat) + files[k - 1].size as nat
    }
}

/// A sum of sizes grows with the number of files.
proof fn lemma_size_grows(files: Seq<PlannedFile>, k: nat, n: nat)
    requires
        k <= n,
    ensures
        size_of(files, k) <= size_of(files, n),
    decreases n,
{
    if k < n {
        lemma_size_grows(files, k, (n - 1) as nat);
    }
}

/// The size of all files of a plan.
pub fn total_size(files: &Vec<PlannedFile>) -> (r: u64)
    requires
        size_of(files@, files@.len()) <= u64::MAX,
    ensures
        r == size_of(files@, files@.len()),
{
    let mut total: u64 = 0;
    let mut i: usize = 0;
    while i < files.len()
        invariant
            i <= files.len(),
            total == size_of(files@, i as nat),
            size_of(files@, files@.len()) <= u64::MAX,
        decreases files.len() - i,
    {
        proof {
            lemma_size_grows(files@, (i + 1) as nat, files@.len());
        }
        total = total + files[i].size;
        i += 1;
    }
    total
}

/// The files of a plan, none of them begun.
pub open spec fn roster_of(kind: TransferKind, files: Seq<PlannedFile>) -> Seq<TrackView> {
    Seq::new(
        files.len(),
        |i: int|
            TrackView {
                id: files[i].id,
                name: files[i].name@,
                kind,
                done: 0,
                total: files[i].size,
            },
    )
}

/// The files of a plan, none of them begun.
pub fn roster(kind: TransferKind, files: &Vec<PlannedFile>) -> (r: Vec<FileProgress>)
    ensures
        messages::track_views(r@) == roster_of(kind, files@),
{
    let mut out: Vec<FileProgress> = Vec::new();
    let mut i: usize = 0;
    while i < files.len()
        invariant
            i <= files.len(),
            out@.len() == i,
            forall|j: int| 0 <= j < i ==> (#[trigger] out@[j])@ == roster_of(kind, files@)[j],
        decreases files.len() - i,
    {
        out.push(
            FileProgress {
                id: files[i].id,
                name: files[i].name.clone(),
                kind,
                done: 0,
                total: files[i].size,
            },
        );
        i += 1;
    }
    assert(messages::track_views(out@) =~= roster_of(kind, files@));
    out
}

/// The live batch, or what is left of the last one.
pub struct HubView {
    pub open: bool,
    /// Files that are not settled yet.
    pub outstanding: u64,
    pub total_files: u64,
    pub total_bytes: u64,
    pub progress: ProgressView,
    pub errors: Seq<Seq<char>>,
    /// How many files go each way at a time.
    pub upload_slots: usize,
    pub download_slots: usize,
    /// Whether the whole batch was cancelled.
    pub cancelled: bool,
    /// Files that can be cancelled, and those of them that were.
    pub registered: Seq<u64>,
    pub stopped: Seq<u64>,
    pub next_id: u64,
}

/// Owns the single live batch.
pub struct TransferHub {
    open: bool,
    outstanding: u64,
    total_files: u64,
    total_bytes: u64,
    progress: Progress,
    errors: Vec<String>,
    upload_slots: usize,
    download_slots: usize,
    cancelled: bool,
    registered: Vec<u64>,
    stopped: Vec<u64>,
    next_id: u64,
}

impl View for TransferHub {
    type V = HubView;

    closed spec fn view(&self) -> HubView {
        HubView {
            open: self.open,
            outstanding: self.outstanding,
            total_files: self.total_files,
            total_bytes: self.total_bytes,
            progress: self.progress@,
            errors: text::views(self.errors@),
            upload_slots: self.upload_slots,
            download_slots: self.download_slots,
            cancelled: self.cancelled,
            registered: self.registered@,
            stopped: self.stopped@,
            next_id: self.next_id,
        }
    }
}

/// What files are told when they are admitted to a batch.
#[derive(Clone, Copy, Debug, PartialEq, Eq, Structural)]
pub struct Admission {
    /// Whether a batch was opened for them.
    pub fresh: bool,
    pub total_files: u64,
    pub total_bytes: u64,
}

/// What becomes of a file when its turn comes.
#[derive(Clone, Copy, Debug, PartialEq, Eq, Structural)]
pub enum Turn {
    /// It is transferred.
    Run,
    /// It was cancelled while it waited, and is settled as failed.
    Settle,
    /// The whole batch was cancelled.
    Skip,
}

/// One, or the number where it is greater.
pub open spec fn at_least_one_slot(n: usize) -> usize {
    if n == 0 {
        1
    } else {
        n
    }
}

/// The state before anything was transferred.
pub open spec fn idle_hub() -> HubView {
    HubView {
        open: false,
        outstanding: 0,
        total_files: 0,
        total_bytes: 0,
        progress: no_progress(),
        errors: Seq::empty(),
        upload_slots: 1,
        download_slots: 1,
        cancelled: false,
        registered: Seq::empty(),
        stopped: Seq::empty(),
        next_id: 0,
    }
}

/// A batch that was just opened.
pub open spec fn opened(h: HubView, settings: Settings) -> HubView {
    HubView {
        open: true,
        upload_slots: at_least_one_slot(settings.upload_parallelism),
        download_slots: at_least_one_slot(settings.download_parallelism),
        next_id: h.next_id,
        ..idle_hub()
    }
}

/// The batch that files are admitted to: the running one, or a new one.
pub open spec fn joined_batch(h: HubView, settings: Settings) -> HubView {
    if h.open {
        h
    } else {
        opened(h, settings)
    }
}

/// The state after files were admitted.
pub open spec fn admitted(h: HubView, settings: Settings, count: u64, bytes: u64) -> HubView {
    let b = joined_batch(h, settings);
    HubView {
        outstanding: (b.outstanding + count) as u64,
        total_files: (b.total_files + count) as u64,
        total_bytes: (b.total_bytes + bytes) as u64,
        ..b
    }
}

/// The state after one file was settled.
pub open spec fn drained(h: HubView) -> HubView {
    let left = if h.outstanding == 0 {
        0u64
    } else {
        (h.outstanding - 1) as u64
    };
    HubView { outstanding: left, open: h.open && left > 0, ..h }
}

/// The state after `k` files were settled.
pub open spec fn drained_by(h: HubView, k: nat) -> HubView
    decreases k,
{
    if k == 0 {
        h
    } else {
        drained(drained_by(h, (k - 1) as nat))
    }
}

/// Whether a file was cancelled, by itself or with its batch.
pub open spec fn is_stopped(h: HubView, id: u64) -> bool {
    h.cancelled || h.stopped.contains(id)
}

/// A list of ids without one of them.
pub open spec fn ids_without(list: Seq<u64>, id: u64) -> Seq<u64>
    decreases list.len(),
{
    if list.len() == 0 {
        list
    } else if list.last() == id {
        ids_without(list.drop_last(), id)
    } else {
        ids_without(list.drop_last(), id).push(list.last())
    }
}

/// The first entries of a list, twenty at most.
pub open spec fn at_most_twenty(list: Seq<Seq<char>>) -> Seq<Seq<char>> {
    if list.len() > 20 {
        list.take(20)
    } else {
        list
    }
}

fn holds_id(list: &Vec<u64>, id: u64) -> (r: bool)
    ensures
        r == list@.contains(id),
{
    let mut i: usize = 0;
    while i < list.len()
        invariant
            i <= list.len(),
            forall|j: int| 0 <= j < i ==> list@[j] != id,
        decreases list.len() - i,
    {
        if list[i] == id {
            return true;
        }
        i += 1;
    }
    false
}

fn drop_id(list: &Vec<u64>, id: u64) -> (r: Vec<u64>)
    ensures
        r@ == ids_without(list@, id),
{
    let mut out: Vec<u64> = Vec::new();
    let mut i: usize = 0;
    while i < list.len()
        invariant
            i <= list.len(),
            out@ == ids_without(list@.take(i as int), id),
        decreases list.len() - i,
    {
        assert(list@.take(i + 1).drop_last() =~= list@.take(i as int));
        if list[i] != id {
            out.push(list[i]);
        }
        i += 1;
    }
    assert(list@.take(i as int) =~= list@);
    out
}

impl TransferHub {
    /// No batch has run yet.
    pub fn new() -> (r: Self)
        ensures
            r@ == idle_hub(),
    {
        let r = TransferHub {
            open: false,
            outstanding: 0,
            total_files: 0,
            total_bytes: 0,
            progress: Progress::new(),
            errors: Vec::new(),
            upload_slots: 1,
            download_slots: 1,
            cancelled: false,
            registered: Vec::new(),
            stopped: Vec::new(),
            next_id: 0,
        };
        assert(r@.errors =~= Seq::empty());
        r
    }

    /// An id that no file has had.
    pub fn next_id(&mut self) -> (r: u64)
        ensures
            r == old(self)@.next_id,
            final(self)@ == (HubView { next_id: bumped(old(self)@.next_id, 1), ..old(self)@ }),
    {
        let id: u64 = self.next_id;
        self.next_id = id.wrapping_add(1);
        id
    }

    /// How many uploads run at a time.
    pub fn upload_slots(&self) -> (r: usize)
        ensures
            r == self@.upload_slots,
    {
        self.upload_slots
    }

    /// How many downloads run at a time.
    pub fn download_slots(&self) -> (r: usize)
        ensures
            r == self@.download_slots,
    {
        self.download_slots
    }

    /// A file can be cancelled from now on.
    pub fn register_file(&mut self, id: u64)
        ensures
            final(self)@ == (HubView {
                registered: ids_without(old(self)@.registered, id).push(id),
                stopped: ids_without(old(self)@.stopped, id),
                ..old(self)@
            }),
    {
        let mut registered = drop_id(&self.registered, id);
        registered.push(id);
        self.registered = registered;
        self.stopped = drop_id(&self.stopped, id);
    }

    /// Cancels a file that can be cancelled.
    pub fn cancel_file(&mut self, id: u64) -> (r: bool)
        ensures
            r == old(self)@.registered.contains(id),
            final(self)@ == if r {
                HubView { stopped: old(self)@.stopped.push(id), ..old(self)@ }
            } else {
                old(self)@
            },
    {
        if holds_id(&self.registered, id) {
            self.stopped.push(id);
            true
        } else {
            false
        }
    }

    /// Cancels the batch.
    pub fn cancel_all(&mut self)
        ensures
            final(self)@ == (HubView { cancelled: true, ..old(self)@ }),
    {
        self.cancelled = true;
    }

    /// A file can no longer be cancelled.
    pub fn unregister_file(&mut self, id: u64)
        ensures
            final(self)@ == (HubView {
                registered: ids_without(old(self)@.registered, id),
                ..old(self)@
            }),
    {
        self.registered = drop_id(&self.registered, id);
    }

    /// Whether a file was cancelled, by itself or with its batch.
    pub fn is_cancelled(&self, id: u64) -> (r: bool)
        ensures
            r == is_stopped(self@, id),
    {
        self.cancelled || holds_id(&self.stopped, id)
    }

    /// Admits files to the running batch, or to a new one where none is open.
    pub fn admit_files(&mut self, settings: &Settings, count: u64, bytes: u64) -> (r: Admission)
        requires
            joined_batch(old(self)@, *settings).outstanding + count <= u64::MAX,
            joined_batch(old(self)@, *settings).total_files + count <= u64::MAX,
            joined_batch(old(self)@, *settings).total_bytes + bytes <= u64::MAX,
        ensures
            final(self)@ == admitted(old(self)@, *settings, count, bytes),
            r.fresh == !old(self)@.open,
            r.total_files == final(self)@.total_files,
            r.total_bytes == final(self)@.total_bytes,
    {
        let fresh = !self.open;
        if fresh {
            self.open = true;
            self.outstanding = 0;
            self.total_files = 0;
            self.total_bytes = 0;
            self.progress = Progress::new();
            self.errors = Vec::new();
            self.upload_slots = if settings.upload_parallelism == 0 {
                1
            } else {
                settings.upload_parallelism
            };
            self.download_slots = if settings.download_parallelism == 0 {
                1
            } else {
                settings.download_parallelism
            };
            self.cancelled = false;
            self.registered = Vec::new();
            self.stopped = Vec::new();
            assert(self@.errors =~= Seq::empty());
        }
        self.outstanding = self.outstanding + count;
        self.total_files = self.total_files + count;
        self.total_bytes = self.total_bytes + bytes;
        Admission { fresh, total_files: self.total_files, total_bytes: self.total_bytes }
    }

    /// What becomes of a file when its turn comes.
    pub fn turn(&self, id: u64) -> (r: Turn)
        ensures
            r == if !is_stopped(self@, id) {
                Turn::Run
            } else if !self@.cancelled {
                Turn::Settle
            } else {
                Turn::Skip
            },
    {
        if !self.is_cancelled(id) {
            Turn::Run
        } else if !self.cancelled {
            Turn::Settle
        } else {
            Turn::Skip
        }
    }

    /// A file is under way, of which `already_done` bytes were done before.
    pub fn file_under_way(
        &mut self,
        id: u64,
        kind: TransferKind,
        name: &str,
        total: u64,
        already_done: u64,
    )
        ensures
            final(self)@ == (HubView {
                progress: ProgressView {
                    active: put(
                        old(self)@.progress.active,
                        TrackView { id, name: name@, kind, done: already_done, total },
                    ),
                    ..old(self)@.progress
                },
                ..old(self)@
            }),
    {
        self.progress.file_resume(id, kind, name, total, already_done);
    }

    /// Bytes of a file were transferred; see [`Progress::tick`].
    pub fn tick(&mut self, id: u64, n: u64, now: u64) -> (r: Option<Event>)
        requires
            old(self)@.progress.uploaded + old(self)@.progress.downloaded <= u64::MAX,
            tracked_in(old(self)@.progress.active, id) ==> old(self)@.progress.active[place(
                old(self)@.progress.active,
                id,
            )].done + n <= u64::MAX,
        ensures
            final(self)@ == (HubView {
                progress: ProgressView {
                    bytes: bumped(old(self)@.progress.bytes, n),
                    active: advanced(old(self)@.progress.active, id, n),
                    last_emit: if now - old(self)@.progress.last_emit >= 100 {
                        now
                    } else {
                        old(self)@.progress.last_emit
                    },
                    ..old(self)@.progress
                },
                ..old(self)@
            }),
            r is Some <==> now - old(self)@.progress.last_emit >= 100,
            r matches Some(e) ==> reports(e, final(self)@.progress, None),
    {
        self.progress.tick(id, n, now)
    }

    /// Settles a file. A failure is noted for the end of the batch, unless the
    /// file was cancelled.
    pub fn settle(&mut self, id: u64, kind: TransferKind, name: &str, failure: Option<&str>) -> (r:
        Event)
        requires
            old(self)@.progress.uploaded + old(self)@.progress.downloaded < u64::MAX,
        ensures
            final(self)@ == (HubView {
                progress: settled(old(self)@.progress, id, kind, failure is None),
                errors: match failure {
                    Some(e) => if is_stopped(old(self)@, id) {
                        old(self)@.errors
                    } else {
                        old(self)@.errors.push(name@ + ": "@ + e@)
                    },
                    None => old(self)@.errors,
                },
                ..old(self)@
            }),
            reports(r, final(self)@.progress, Some((id, failure is None))),
    {
        let ghost before = self.errors@;
        let mut ok = true;
        if let Some(e) = failure {
            ok = false;
            if !self.is_cancelled(id) {
                let mut line = name.to_string();
                line.append(": ");
                line.append(e);
                self.errors.push(line);
                assert(text::views(self.errors@) =~= text::views(before).push(
                    name@ + ": "@ + e@,
                ));
            }
        }
        self.progress.file_done(id, kind, ok)
    }

    /// One file of the batch is through. The last one closes the batch, which is
    /// then summed up with the first twenty failures.
    pub fn task_done(&mut self) -> (r: Option<Event>)
        ensures
            final(self)@ == drained(old(self)@),
            r is Some <==> old(self)@.open && !final(self)@.open,
            r matches Some(e) ==> (e matches Event::TransferFinished {
                uploaded,
                downloaded,
                failed,
                errors,
            } && {
                &&& uploaded == old(self)@.progress.uploaded
                &&& downloaded == old(self)@.progress.downloaded
                &&& failed == old(self)@.progress.failed
                &&& text::views(errors@) == at_most_twenty(old(self)@.errors)
            }),
    {
        if self.outstanding > 0 {
            self.outstanding = self.outstanding - 1;
        }
        if self.open && self.outstanding == 0 {
            self.open = false;
            let mut errors: Vec<String> = Vec::new();
            let mut i: usize = 0;
            while i < self.errors.len() && i < 20
                invariant
                    i <= self.errors.len(),
                    i <= 20,
                    errors@.len() == i,
                    forall|j: int| 0 <= j < i ==> (#[trigger] errors@[j])@ == self.errors@[j]@,
                decreases 20 - i,
            {
                errors.push(self.errors[i].clone());
                i += 1;
            }
            assert(text::views(errors@) =~= at_most_twenty(text::views(self.errors@)));
            Some(
                Event::TransferFinished {
                    uploaded: self.progress.uploaded,
                    downloaded: self.progress.downloaded,
                    failed: self.progress.failed,
                    errors,
                },
            )
        } else {
            None
        }
    }
}

/// What the user is told when files join: that a batch was started, or that the
/// running one was extended.
pub fn announce(admission: Admission, files: Vec<FileProgress>) -> (r: Event)
    ensures
        r == if admission.fresh {
            Event::TransferStarted {
                total_files: admission.total_files,
                total_bytes: admission.total_bytes,
                files,
            }
        } else {
            Event::TransferExtended {
                total_files: admission.total_files,
                total_bytes: admission.total_bytes,
                added: files,
            }
        },
{
    if admission.fresh {
        Event::TransferStarted {
            total_files: admission.total_files,
            total_bytes: admission.total_bytes,
            files,
        }
    } else {
        Event::TransferExtended {
            total_files: admission.total_files,
            total_bytes: admission.total_bytes,
            added: files,
        }
    }
}

/// An open batch stays open until as many files are through as were admitted and
/// not settled, and is closed with the last of them.
pub proof fn law_batch_drains(h: HubView, k: nat)
    requires
        h.open,
        h.outstanding > 0,
        k <= h.outstanding,
    ensures
        drained_by(h, k).open <==> k < h.outstanding,
        drained_by(h, k).outstanding == h.outstanding - k,
        drained_by(h, k).total_files == h.total_files,
        drained_by(h, k).errors == h.errors,
    decreases k,
{
    if k > 0 {
        law_batch_drains(h, (k - 1) as nat);
    }
}

/// Files that arrive while a batch is open extend it: nothing of it is lost, and
/// it drains only when the old and the new files are through.
pub proof fn law_batch_extends(h: HubView, settings: Settings, count: u64, bytes: u64)
    requires
        h.open,
        h.outstanding + count <= u64::MAX,
        h.total_files + count <= u64::MAX,
        h.total_bytes + bytes <= u64::MAX,
    ensures
        ({
            let after = admitted(h, settings, count, bytes);
            &&& after.open
            &&& after.outstanding == h.outstanding + count
            &&& after.total_files == h.total_files + count
            &&& after.total_bytes == h.total_bytes + bytes
            &&& after.progress == h.progress
            &&& after.errors == h.errors
            &&& after.upload_slots == h.upload_slots
            &&& after.download_slots == h.download_slots
            &&& after.cancelled == h.cancelled
        }),
{
}

/// A batch that is opened after another has nothing of it: no totals, no
/// failures, nothing cancelled, and places by the settings of the day.
pub proof fn law_batch_is_fresh(h: HubView, settings: Settings, count: u64, bytes: u64)
    requires
        !h.open,
    ensures
        ({
            let after = admitted(h, settings, count, bytes);
            &&& after.open
            &&& after.outstanding == count
            &&& after.total_files == count
            &&& after.total_bytes == bytes
            &&& after.progress == no_progress()
            &&& after.errors.len() == 0
            &&& forall|id: u64| !is_stopped(after, id)
            &&& after.upload_slots >= 1
            &&& after.download_slots >= 1
        }),
{
}

/// Taking an id out leaves exactly the other ids.
proof fn lemma_ids_without(list: Seq<u64>, id: u64)
    ensures
        forall|x: u64| #[trigger]
            ids_without(list, id).contains(x) <==> list.contains(x) && x != id,
    decreases list.len(),
{
    if list.len() > 0 {
        let front = list.drop_last();
        let inner = ids_without(front, id);
        lemma_ids_without(front, id);
        assert forall|x: u64| #[trigger]
            ids_without(list, id).contains(x) <==> list.contains(x) && x != id by {
            assert(list =~= front.push(list.last()));
            if front.contains(x) {
                let i = choose|i: int| 0 <= i < front.len() && front[i] == x;
                assert(list[i] == x);
            }
            if list.contains(x) && x != list.last() {
                let i = choose|i: int| 0 <= i < list.len() && list[i] == x;
                assert(front[i] == x);
            }
            assert(list[list.len() - 1] == list.last());
            if list.last() != id {
                let out = inner.push(list.last());
                if inner.contains(x) {
                    let i = choose|i: int| 0 <= i < inner.len() && inner[i] == x;
                    assert(out[i] == x);
                }
                if out.contains(x) && x != list.last() {
                    let i = choose|i: int| 0 <= i < out.len() && out[i] == x;
                    assert(inner[i] == x);
                }
                assert(out[out.len() - 1] == list.last());
            }
        }
    }
}

/// Cancelling one file leaves the others as they were, and registering a file
/// anew takes its own cancellation back.
pub proof fn law_cancel_is_per_file(h: HubView, id: u64, other: u64)
    requires
        id != other,
        !h.cancelled,
    ensures
        is_stopped((HubView { stopped: h.stopped.push(id), ..h }), id),
        is_stopped((HubView { stopped: h.stopped.push(id), ..h }), other) == is_stopped(h, other),
        !is_stopped((HubView { stopped: ids_without(h.stopped, id), ..h }), id),
        is_stopped((HubView { stopped: ids_without(h.stopped, id), ..h }), other) == is_stopped(
            h,
            other,
        ),
{
    lemma_ids_without(h.stopped, id);
    let after = h.stopped.push(id);
    assert(after[after.len() - 1] == id);
    if h.stopped.contains(other) {
        let i = choose|i: int| 0 <= i < h.stopped.len() && h.stopped[i] == other;
        assert(after[i] == other);
    }
    if after.contains(other) {
        let i = choose|i: int| 0 <= i < after.len() && after[i] == other;
        assert(h.stopped[i] == other);
    }
}

/// A file that is settled is counted once: as failed, as uploaded or as downloaded,
/// and is no longer under way; the bytes and all other files stay as they were.
pub proof fn law_each_file_counts_once(p: ProgressView, id: u64, kind: TransferKind, ok: bool)
    requires
        by_id(p.active),
        p.uploaded < u64::MAX,
        p.downloaded < u64::MAX,
        p.failed < u64::MAX,
    ensures
        ({
            let q = settled(p, id, kind, ok);
            &&& q.uploaded + q.downloaded + q.failed == p.uploaded + p.downloaded + p.failed + 1
            &&& q.failed == p.failed + if ok {
                0int
            } else {
                1
            }
            &&& q.uploaded == p.uploaded + if ok && kind == TransferKind::Upload {
                1int
            } else {
                0
            }
            &&& q.bytes == p.bytes
            &&& q.last_emit == p.last_emit
            &&& forall|t: TrackView| #[trigger]
                q.active.contains(t) <==> p.active.contains(t) && t.id != id
        }),
{
    law_dropped_is_gone(p.active, id);
}

/// Bytes that were transferred count for their file alone, and change nothing else of
/// it.
pub proof fn law_bytes_count_for_their_file(list: Seq<TrackView>, id: u64, n: u64, i: int)
    requires
        by_id(list),
        0 <= i < list.len(),
        list[i].done + n <= u64::MAX,
    ensures
        ({
            let after = advanced(list, id, n);
            &&& after.len() == list.len()
            &&& after[i].id == list[i].id
            &&& after[i].name == list[i].name
            &&& after[i].kind == list[i].kind
            &&& after[i].total == list[i].total
            &&& after[i].done == list[i].done + if list[i].id == id {
                n as int
            } else {
                0
            }
        }),
{
    lemma_place(list, id);
    if list[i].id == id {
        let p = place(list, id);
        assert(list[p].id >= id);
        if p < i {
            assert(list[p].id < list[i].id);
        }
    }
}

/// The files of a plan are announced in its order, each under its own id and name,
/// with its size and nothing done; their sizes add up to the whole.
pub proof fn law_roster_announces_the_plan(kind: TransferKind, files: Seq<PlannedFile>)
    ensures
        roster_of(kind, files).len() == files.len(),
        forall|i: int|
            0 <= i < files.len() ==> {
                let t = #[trigger] roster_of(kind, files)[i];
                &&& t.id == files[i].id
                &&& t.name == files[i].name@
                &&& t.kind == kind
                &&& t.done == 0
                &&& t.total == files[i].size
            },
        size_of(files, files.len()) == files.map_values(|f: PlannedFile| f.size as int).fold_left(
            0int,
            |sum: int, n: int| sum + n,
        ),
    decreases files.len(),
{
    let add = |sum: int, n: int| sum + n;
    let sizes = files.map_values(|f: PlannedFile| f.size as int);
    reveal_with_fuel(Seq::fold_left, 2);
    if files.len() > 0 {
        let front = files.drop_last();
        law_roster_announces_the_plan(kind, front);
        lemma_size_of_front(files, front.len());
        assert(sizes.drop_last() =~= front.map_values(|f: PlannedFile| f.size as int));
        assert(sizes.last() == files.last().size as int);
    }
}

proof fn lemma_size_of_front(files: Seq<PlannedFile>, k: nat)
    requires
        k < files.len(),
    ensures
        size_of(files.drop_last(), k) == size_of(files, k),
    decreases k,
{
    if k > 0 {
        lemma_size_of_front(files, (k - 1) as nat);
    }
}

/// As many files go each way at a time as the settings say, and one at least.
pub proof fn law_slots_are_those_set(h: HubView, settings: Settings, count: u64, bytes: u64)
    requires
        !h.open,
    ensures
        ({
            let after = admitted(h, settings, count, bytes);
            &&& settings.upload_parallelism > 0 ==> after.upload_slots
                == settings.upload_parallelism
            &&& settings.download_parallelism > 0 ==> after.download_slots
                == settings.download_parallelism
            &&& settings.upload_parallelism == 0 ==> after.upload_slots == 1
            &&& settings.download_parallelism == 0 ==> after.download_slots == 1
            &&& after.next_id == h.next_id
        }),
{
}

/// A cancelled batch stops every file of it, and a file that was cancelled stops
/// whatever becomes of the batch.
pub proof fn law_batch_cancel_stops_all(h: HubView, id: u64)
    ensures
        h.cancelled ==> is_stopped(h, id),
        h.stopped.contains(id) ==> is_stopped(h, id),
        !h.cancelled && !h.stopped.contains(id) ==> !is_stopped(h, id),
{
}

/// Of the failures of a batch the first twenty are told, in their order.
pub proof fn law_first_failures_are_told(list: Seq<Seq<char>>)
    ensures
        at_most_twenty(list).len() == if list.len() < 20 {
            list.len()
        } else {
            20
        },
        forall|i: int|
            0 <= i < at_most_twenty(list).len() ==> #[trigger] at_most_twenty(list)[i] == list[i],
{
}

/// Taking an id out keeps the others in their order.
pub proof fn law_other_ids_keep_their_order(list: Seq<u64>, id: u64)
    ensures
        ids_without(list, id) == list.filter(|x: u64| x != id),
    decreases list.len(),
{
    reveal(Seq::filter);
    if list.len() > 0 {
        law_other_ids_keep_their_order(list.drop_last(), id);
    } else {
        assert(list =~= Seq::empty());
    }
}

} // verus!
