//! The download of one file, from the first try to the last.
//!
//! The owner performs an action, and tells the task what came of it.

use crate::crypto;
use crate::crypto::{CryptoError, VaultKeys};
use crate::worker::download;
use crate::worker::download::{ChunkStream, DownloadError, Resume, Tries};
use vstd::prelude::*;

verus! {

/// What the owner does next.
#[derive(Debug)]
pub enum DownloadAction {
    /// Make the directory of the file, and measure what is there of the download.
    Measure,
    /// Cut what is there.
    Cut { to: u64 },
    /// Open the object from an offset on, and what is there for appending; so
    /// many bytes of the file are done.
    Open { offset: u64, keep: u64 },
    /// Read the header: from the open object, or by a request of its own.
    ReadHeader { from_stream: bool },
    /// Read so many bytes.
    ReadExactly { len: usize },
    /// Read what comes.
    ReadSome,
    /// Append, and count the bytes.
    Write { data: Vec<u8> },
    /// Cut what is there if asked to, and give it the name of the file.
    Rename { cut_to: Option<u64> },
    /// See to the connection, wait, and begin again.
    HealAndWait { ms: u64 },
    /// The file is there.
    Done,
    /// Remove what is there, and report the failure: this one, or the one that
    /// the owner has met.
    GiveUp { fault: Option<DownloadError> },
}

/// What came of it.
#[derive(Debug)]
pub enum DownloadEvent {
    /// A try begins.
    Begin { cancelled: bool },
    Measured { on_disk: u64 },
    CutDone,
    Opened,
    Header { data: Vec<u8>, cancelled: bool },
    /// Bytes were read; none at the end of a plain object.
    Bytes { data: Vec<u8>, cancelled: bool },
    Written,
    Renamed,
    /// What was to be done failed, or was cancelled.
    Failed { cancelled: bool },
}

/// Where a download stands.
#[derive(Clone, Copy, Debug, PartialEq, Eq, Structural)]
pub enum Phase {
    Idle,
    Measuring,
    Cutting,
    Opening,
    AwaitHeader,
    AwaitBytes,
    Writing,
    Renaming,
    Over,
}

/// The download of one file.
pub struct DownloadTask {
    size: u64,
    encrypted: bool,
    tries: Tries,
    phase: Phase,
    keep: u64,
    offset: u64,
    completed: u64,
    chunks: Option<ChunkStream>,
}

/// What is known of the chunks of an encrypted file.
pub struct ChunksView {
    pub key: Seq<u8>,
    pub prefix: Seq<u8>,
    pub next: nat,
    pub count: nat,
    pub last_len: nat,
}

/// The download of one file.
pub struct TaskView {
    pub size: u64,
    pub encrypted: bool,
    pub tries: Tries,
    pub phase: Phase,
    pub keep: u64,
    pub offset: u64,
    pub completed: u64,
    pub chunks: Option<ChunksView>,
}

/// What is known of the chunks of a file that is being read.
pub open spec fn chunks_view(s: ChunkStream) -> ChunksView {
    ChunksView {
        key: s.key(),
        prefix: s.prefix(),
        next: s.next(),
        count: s.chunks(),
        last_len: s.last_len(),
    }
}

impl View for DownloadTask {
    type V = TaskView;

    closed spec fn view(&self) -> TaskView {
        TaskView {
            size: self.size,
            encrypted: self.encrypted,
            tries: self.tries,
            phase: self.phase,
            keep: self.keep,
            offset: self.offset,
            completed: self.completed,
            chunks: match self.chunks {
                Some(s) => Some(chunks_view(s)),
                None => None,
            },
        }
    }
}

/// Whether a file of this size can be downloaded.
pub open spec fn fits(encrypted: bool, size: u64) -> bool {
    encrypted ==> crypto::sealed_len(size as nat) <= u64::MAX && crypto::chunks_of(size as nat)
        <= u32::MAX
}

/// Whether a file of this size can be downloaded: the chunks of an encrypted one
/// are counted in 32 bits.
pub fn can_download(encrypted: bool, size: u64) -> (r: bool)
    ensures
        r == fits(encrypted, size),
{
    !encrypted || size <= 0xf_ffff_fff0_0000
}

/// The length of the next chunk.
pub open spec fn next_len(c: ChunksView) -> usize {
    if c.next + 1 == c.count {
        c.last_len as usize
    } else {
        crypto::CIPHER_CHUNK
    }
}

/// Whether an event can come in a phase.
pub open spec fn expected(t: TaskView, e: DownloadEvent) -> bool {
    match e {
        DownloadEvent::Begin { .. } => t.phase == Phase::Idle,
        DownloadEvent::Measured { .. } => t.phase == Phase::Measuring,
        DownloadEvent::CutDone => t.phase == Phase::Cutting,
        DownloadEvent::Opened => t.phase == Phase::Opening,
        DownloadEvent::Header { .. } => t.phase == Phase::AwaitHeader,
        DownloadEvent::Bytes { data, .. } => t.phase == Phase::AwaitBytes && (t.chunks matches Some(
            c,
        ) ==> data@.len() == next_len(c)),
        DownloadEvent::Written => t.phase == Phase::Writing,
        DownloadEvent::Renamed => t.phase == Phase::Renaming,
        DownloadEvent::Failed { .. } => t.phase != Phase::Idle && t.phase != Phase::Over,
    }
}

/// The task after a failure: there is another try, or it is given up.
pub open spec fn after_failure(t: TaskView, cancelled: bool) -> TaskView {
    if t.tries.attempt < t.tries.retries && !cancelled {
        TaskView {
            tries: Tries { attempt: (t.tries.attempt + 1) as u32, ..t.tries },
            phase: Phase::Idle,
            chunks: None,
            ..t
        }
    } else {
        TaskView { phase: Phase::Over, chunks: None, ..t }
    }
}

/// Whether an action is what follows a failure.
pub open spec fn follows_failure(
    a: DownloadAction,
    t: TaskView,
    cancelled: bool,
    fault: Option<DownloadError>,
) -> bool {
    if t.tries.attempt < t.tries.retries && !cancelled {
        a matches DownloadAction::HealAndWait { ms } && ms == download::backoff(
            (t.tries.attempt + 1) as u32,
        )
    } else {
        a matches DownloadAction::GiveUp { fault: f } && f == fault
    }
}

/// Whether an action asks for what comes next of the object.
pub open spec fn reads_on(a: DownloadAction, after: TaskView, before: TaskView) -> bool {
    match before.chunks {
        None => after == (TaskView { phase: Phase::AwaitBytes, ..before }) && a is ReadSome,
        Some(c) => if c.next < c.count {
            &&& after == (TaskView { phase: Phase::AwaitBytes, ..before })
            &&& a matches DownloadAction::ReadExactly { len } && len == next_len(c)
        } else {
            &&& after == (TaskView { phase: Phase::Renaming, ..before })
            &&& a matches DownloadAction::Rename { cut_to } && cut_to is None
        },
    }
}

/// Whether `after` and the action are what follows an event.
pub open spec fn transition(
    before: TaskView,
    content_key: Option<Seq<u8>>,
    e: DownloadEvent,
    after: TaskView,
    a: DownloadAction,
) -> bool {
    match e {
        DownloadEvent::Begin { cancelled } => if cancelled {
            after == after_failure(before, true) && follows_failure(a, before, true, None)
        } else {
            after == (TaskView { phase: Phase::Measuring, ..before }) && a is Measure
        },
        DownloadEvent::Measured { on_disk } => match download::resumed(
            before.encrypted,
            on_disk,
            before.size,
        ) {
            Resume::Finalize { cut_to } => {
                &&& after == (TaskView { phase: Phase::Renaming, ..before })
                &&& a matches DownloadAction::Rename { cut_to: c } && c == cut_to
            },
            Resume::Fetch { keep, cut, offset, completed } => {
                &&& after == (TaskView {
                    phase: if cut {
                        Phase::Cutting
                    } else {
                        Phase::Opening
                    },
                    keep,
                    offset,
                    completed,
                    ..before
                })
                &&& if cut {
                    a matches DownloadAction::Cut { to } && to == keep
                } else {
                    a matches DownloadAction::Open { offset: o, keep: k } && o == offset && k
                        == keep
                }
            },
        },
        DownloadEvent::CutDone => {
            &&& after == (TaskView { phase: Phase::Opening, ..before })
            &&& a matches DownloadAction::Open { offset, keep } && offset == before.offset && keep
                == before.keep
        },
        DownloadEvent::Opened => if before.encrypted {
            &&& after == (TaskView { phase: Phase::AwaitHeader, ..before })
            &&& a matches DownloadAction::ReadHeader { from_stream } && from_stream == (
            before.completed == 0)
        } else {
            after == (TaskView { phase: Phase::AwaitBytes, ..before }) && a is ReadSome
        },
        DownloadEvent::Header { data, cancelled } => if data@.len() < 12 {
            &&& after == after_failure(before, cancelled)
            &&& follows_failure(a, before, cancelled, Some(DownloadError::NoHeader))
        } else if !crypto::has_header(data@) {
            &&& after == after_failure(before, cancelled)
            &&& follows_failure(
                a,
                before,
                cancelled,
                Some(DownloadError::Crypto(CryptoError::BadHeader)),
            )
        } else {
            let plain = before.size as nat;
            let opened = TaskView {
                chunks: Some(
                    ChunksView {
                        key: content_key->0,
                        prefix: data@.subrange(4, 12),
                        next: before.completed as nat,
                        count: crypto::chunks_of(plain),
                        last_len: (plain - (crypto::chunks_of(plain) - 1) * 0x10_0000
                            + 16) as nat,
                    },
                ),
                ..before
            };
            reads_on(a, after, opened)
        },
        DownloadEvent::Bytes { data, cancelled } => match before.chunks {
            None => if data@.len() == 0 {
                &&& after == (TaskView { phase: Phase::Renaming, ..before })
                &&& a matches DownloadAction::Rename { cut_to } && cut_to is None
            } else {
                &&& after == (TaskView { phase: Phase::Writing, ..before })
                &&& a matches DownloadAction::Write { data: d } && d@ == data@
            },
            Some(c) => match crypto::opens_to(
                c.key,
                crypto::nonce_of(c.prefix, c.next as u32, c.next + 1 == c.count),
                data@,
            ) {
                Some(plain) => {
                    &&& after == (TaskView {
                        phase: Phase::Writing,
                        chunks: Some(ChunksView { next: c.next + 1, ..c }),
                        ..before
                    })
                    &&& a matches DownloadAction::Write { data: d } && d@ == plain
                },
                None => {
                    &&& after == after_failure(before, cancelled)
                    &&& follows_failure(
                        a,
                        before,
                        cancelled,
                        Some(DownloadError::Crypto(CryptoError::DecryptionFailed)),
                    )
                },
            },
        },
        DownloadEvent::Written => reads_on(a, after, before),
        DownloadEvent::Renamed => after == (TaskView { phase: Phase::Over, ..before })
            && a is Done,
        DownloadEvent::Failed { cancelled } => {
            &&& after == after_failure(before, cancelled)
            &&& follows_failure(a, before, cancelled, None)
        },
    }
}

impl DownloadTask {
    /// What holds between any two events.
    pub closed spec fn well_formed(&self) -> bool {
        &&& fits(self.encrypted, self.size)
        &&& match self.chunks {
            Some(s) => {
                &&& self.encrypted
                &&& s.well_formed()
                &&& s.last_len() <= crypto::CIPHER_CHUNK
                &&& self.phase == Phase::AwaitBytes ==> s.next() < s.chunks()
            },
            None => true,
        }
        &&& self.phase == Phase::AwaitHeader ==> self.encrypted && self.completed
            < crypto::chunks_of(self.size as nat) && self.chunks is None
        &&& self.phase == Phase::AwaitBytes && self.encrypted ==> self.chunks is Some
        &&& self.phase == Phase::Cutting || self.phase == Phase::Opening ==> self.chunks is None
            && (self.encrypted ==> self.completed < crypto::chunks_of(self.size as nat))
        &&& self.phase == Phase::Idle || self.phase == Phase::Measuring ==> self.chunks is None
        &&& self.phase == Phase::Writing && self.encrypted ==> self.chunks is Some
    }

    /// The download of a file of so many plaintext bytes, which may be tried
    /// again so many times.
    pub fn new(size: u64, encrypted: bool, retries: u32) -> (r: Self)
        requires
            fits(encrypted, size),
        ensures
            r.well_formed(),
            r@ == (TaskView {
                size,
                encrypted,
                tries: Tries { attempt: 0, retries },
                phase: Phase::Idle,
                keep: 0,
                offset: 0,
                completed: 0,
                chunks: None,
            }),
    {
        DownloadTask {
            size,
            encrypted,
            tries: Tries::new(retries),
            phase: Phase::Idle,
            keep: 0,
            offset: 0,
            completed: 0,
            chunks: None,
        }
    }

    /// Lets the chunks go, after the key that they are opened under was
    /// overwritten.
    fn drop_chunks(&mut self) -> (r: Option<ChunkStream>)
        ensures
            final(self)@ == (TaskView { chunks: None, ..old(self)@ }),
            match old(self)@.chunks {
                Some(c) => r matches Some(s) && chunks_view(s) == (ChunksView {
                    key: crypto::zeroes(32),
                    ..c
                }),
                None => r is None,
            },
    {
        if let Some(stream) = &mut self.chunks {
            stream.wipe();
        }
        let mut gone: Option<ChunkStream> = None;
        std::mem::swap(&mut gone, &mut self.chunks);
        gone
    }

    /// Ends the task: nothing of it is left to do, and the key that it holds is
    /// overwritten.
    pub fn wipe(&mut self)
        requires
            old(self).well_formed(),
        ensures
            final(self).well_formed(),
            final(self)@ == (TaskView {
                chunks: match old(self)@.chunks {
                    Some(c) => Some(ChunksView { key: crypto::zeroes(32), ..c }),
                    None => None,
                },
                phase: Phase::Over,
                ..old(self)@
            }),
    {
        if let Some(stream) = &mut self.chunks {
            stream.wipe();
        }
        self.phase = Phase::Over;
    }

    fn failed(&mut self, cancelled: bool, fault: Option<DownloadError>) -> (r: DownloadAction)
        requires
            old(self).well_formed(),
        ensures
            final(self).well_formed(),
            final(self)@ == after_failure(old(self)@, cancelled),
            follows_failure(r, old(self)@, cancelled, fault),
    {
        let _ = self.drop_chunks();
        if self.tries.again(cancelled) {
            self.phase = Phase::Idle;
            DownloadAction::HealAndWait { ms: download::backoff_ms(self.tries.attempt) }
        } else {
            self.phase = Phase::Over;
            DownloadAction::GiveUp { fault }
        }
    }

    fn read_on(&mut self) -> (r: DownloadAction)
        requires
            old(self).well_formed(),
            old(self)@.encrypted ==> old(self)@.chunks is Some,
        ensures
            final(self).well_formed(),
            reads_on(r, final(self)@, old(self)@),
    {
        match &self.chunks {
            Some(s) => match s.want() {
                Some(len) => {
                    self.phase = Phase::AwaitBytes;
                    DownloadAction::ReadExactly { len }
                },
                None => {
                    self.phase = Phase::Renaming;
                    DownloadAction::Rename { cut_to: None }
                },
            },
            None => {
                self.phase = Phase::AwaitBytes;
                DownloadAction::ReadSome
            },
        }
    }

    /// Takes in what came of the last action, and says what to do next.
    pub fn step(&mut self, keys: Option<&VaultKeys>, event: DownloadEvent) -> (r: DownloadAction)
        requires
            old(self).well_formed(),
            keys is Some == old(self)@.encrypted,
            expected(old(self)@, event),
        ensures
            final(self).well_formed(),
            transition(
                old(self)@,
                match keys {
                    Some(k) => Some(k.content_key()),
                    None => None,
                },
                event,
                final(self)@,
                r,
            ),
    {
        match event {
            DownloadEvent::Begin { cancelled } => {
                if cancelled {
                    self.failed(true, None)
                } else {
                    self.phase = Phase::Measuring;
                    DownloadAction::Measure
                }
            },
            DownloadEvent::Measured { on_disk } => match download::plan_resume(
                self.encrypted,
                on_disk,
                self.size,
            ) {
                Resume::Finalize { cut_to } => {
                    self.phase = Phase::Renaming;
                    DownloadAction::Rename { cut_to }
                },
                Resume::Fetch { keep, cut, offset, completed } => {
                    self.keep = keep;
                    self.offset = offset;
                    self.completed = completed;
                    if cut {
                        self.phase = Phase::Cutting;
                        DownloadAction::Cut { to: keep }
                    } else {
                        self.phase = Phase::Opening;
                        DownloadAction::Open { offset, keep }
                    }
                },
            },
            DownloadEvent::CutDone => {
                self.phase = Phase::Opening;
                DownloadAction::Open { offset: self.offset, keep: self.keep }
            },
            DownloadEvent::Opened => {
                if self.encrypted {
                    self.phase = Phase::AwaitHeader;
                    DownloadAction::ReadHeader { from_stream: self.completed == 0 }
                } else {
                    self.phase = Phase::AwaitBytes;
                    DownloadAction::ReadSome
                }
            },
            DownloadEvent::Header { data, cancelled } => {
                proof {
                    crypto::law_layout_of_sealed(self.size as nat);
                }
                match ChunkStream::open(
                    keys.unwrap(),
                    data.as_slice(),
                    crypto::encrypted_size(self.size),
                    self.completed as u32,
                ) {
                    Ok(stream) => {
                        self.chunks = Some(stream);
                        self.phase = Phase::Writing;
                        self.read_on()
                    },
                    Err(e) => self.failed(cancelled, Some(e)),
                }
            },
            DownloadEvent::Bytes { data, cancelled } => {
                match &mut self.chunks {
                    None => {
                        if data.len() == 0 {
                            self.phase = Phase::Renaming;
                            DownloadAction::Rename { cut_to: None }
                        } else {
                            self.phase = Phase::Writing;
                            DownloadAction::Write { data }
                        }
                    },
                    Some(stream) => match stream.take(data.as_slice()) {
                        Ok(plain) => {
                            self.phase = Phase::Writing;
                            DownloadAction::Write { data: plain }
                        },
                        Err(e) => {
                            self.phase = Phase::Renaming;
                            self.failed(cancelled, Some(DownloadError::Crypto(e)))
                        },
                    },
                }
            },
            DownloadEvent::Written => self.read_on(),
            DownloadEvent::Renamed => {
                self.phase = Phase::Over;
                DownloadAction::Done
            },
            DownloadEvent::Failed { cancelled } => self.failed(cancelled, None),
        }
    }
}

/// A download is tried no more often than it may be: every failure uses up a try
/// or ends the download, and nothing follows the end.
pub proof fn law_tries_are_bounded(t: TaskView, cancelled: bool)
    requires
        t.tries.attempt <= t.tries.retries,
    ensures
        after_failure(t, cancelled).tries.attempt <= t.tries.retries,
        after_failure(t, cancelled).phase == Phase::Idle ==> after_failure(
            t,
            cancelled,
        ).tries.attempt == t.tries.attempt + 1,
        cancelled ==> after_failure(t, cancelled).phase == Phase::Over,
        forall|e: DownloadEvent|
            after_failure(t, cancelled).phase == Phase::Over ==> !expected(
                after_failure(t, cancelled),
                e,
            ),
{
}

/// A download restores what was stored. For an object of the length that its
/// plaintext calls for, what the task asks for is the object chunk by chunk; each
/// chunk opens, and what is written for it goes on where the chunks before it end.
/// So what is written is always the beginning of the plaintext, and with the last
/// chunk all of it.
pub proof fn law_download_restores(key: Seq<u8>, blob: Seq<u8>, data: Seq<u8>, c: ChunksView)
    requires
        crypto::decrypted(key, blob) == Ok::<Seq<u8>, CryptoError>(data),
        blob.len() == crypto::sealed_len(data.len()),
        c.key == key,
        c.prefix == blob.subrange(4, 12),
        c.next < c.count,
        c.count == crypto::chunks_of(data.len()),
        c.last_len == data.len() - (c.count - 1) * 0x10_0000 + 16,
    ensures
        ({
            let sealed = crypto::cipher_chunk(blob, c.count, c.next as int);
            let opened = crypto::opens_to(
                c.key,
                crypto::nonce_of(c.prefix, c.next as u32, c.next + 1 == c.count),
                sealed,
            );
            let done = data.take(c.next as int * 0x10_0000);
            &&& sealed.len() == next_len(c)
            &&& opened is Some
            &&& c.next + 1 < c.count ==> done + opened->0 == data.take(
                (c.next as int + 1) * 0x10_0000,
            )
            &&& c.next + 1 == c.count ==> done + opened->0 == data
        }),
{
    let n = c.count;
    crypto::law_layout_of_sealed(data.len());
    crypto::law_chunks_open_in_place(key, blob, data, n, c.next);
    if c.next + 1 < n {
        crypto::law_chunks_open_in_place(key, blob, data, n, c.next + 1);
    }
}

/// A download goes on from what is on disk as planned: of a plain file nothing that
/// is there is fetched again, and what is there is kept; of an encrypted one what is
/// over a whole chunk is cut off first, and the object is fetched from where the next
/// chunk starts. What is complete is given its name.
pub proof fn law_fetch_goes_on_from_disk(
    before: TaskView,
    content_key: Option<Seq<u8>>,
    on_disk: u64,
    after: TaskView,
    a: DownloadAction,
)
    requires
        fits(before.encrypted, before.size),
        transition(before, content_key, DownloadEvent::Measured { on_disk }, after, a),
    ensures
        !before.encrypted && on_disk < before.size ==> a == (DownloadAction::Open {
            offset: on_disk,
            keep: on_disk,
        }),
        !before.encrypted && on_disk >= before.size && on_disk > 0
            ==> a == (DownloadAction::Rename {
            cut_to: if on_disk > before.size {
                Some(before.size)
            } else {
                None
            },
        }),
        before.encrypted && on_disk < before.size && on_disk % 0x10_0000 == 0
            ==> a == (DownloadAction::Open {
            offset: if on_disk == 0 {
                0
            } else {
                (12 + on_disk / 0x10_0000 * 0x10_0010) as u64
            },
            keep: on_disk,
        }) && after.completed == on_disk / 0x10_0000,
        before.encrypted && on_disk < before.size && on_disk % 0x10_0000 != 0 ==> {
            &&& a == (DownloadAction::Cut { to: (on_disk - on_disk % 0x10_0000) as u64 })
            &&& after.keep == on_disk - on_disk % 0x10_0000
            &&& after.completed == on_disk / 0x10_0000
            &&& after.offset == if after.completed == 0 {
                0
            } else {
                12 + after.completed * 0x10_0010
            }
        },
        after.size == before.size,
        after.encrypted == before.encrypted,
        after.tries == before.tries,
{
    download::law_resume_accounts(before.encrypted, on_disk, before.size);
}

/// After the cut the object is opened where it was planned, and what was kept is
/// kept. A plain object is then written as it comes, and given its name where it
/// ends.
pub proof fn law_plain_bytes_are_written(
    before: TaskView,
    content_key: Option<Seq<u8>>,
    e: DownloadEvent,
    after: TaskView,
    a: DownloadAction,
)
    requires
        transition(before, content_key, e, after, a),
    ensures
        e is CutDone ==> a == (DownloadAction::Open { offset: before.offset, keep: before.keep })
            && after.offset == before.offset && after.completed == before.completed,
        e is Opened && !before.encrypted ==> a is ReadSome,
        e is Opened && before.encrypted ==> a == (DownloadAction::ReadHeader {
            from_stream: before.completed == 0,
        }) && after.completed == before.completed,
        e matches DownloadEvent::Bytes { data, .. } ==> before.chunks is None ==> {
            &&& data@.len() > 0 ==> (a matches DownloadAction::Write { data: d } && d@ == data@)
            &&& data@.len() == 0 ==> a == (DownloadAction::Rename { cut_to: None })
        },
        e is Written && before.chunks is None ==> a is ReadSome,
        e is Renamed ==> a is Done && after.phase == Phase::Over,
        !(a is Open) && !(a is Cut) && !(e is Measured) ==> after.keep == before.keep,
{
}

/// An encrypted object is read from its header on at the chunk that was planned, of
/// as many chunks as its plaintext has, and asks for each chunk by its length; a
/// chunk that opens is written, and after the last one the file is given its name.
pub proof fn law_chunks_are_read_in_order(
    before: TaskView,
    key: Seq<u8>,
    e: DownloadEvent,
    after: TaskView,
    a: DownloadAction,
)
    requires
        before.encrypted,
        transition(before, Some(key), e, after, a),
    ensures
        e matches DownloadEvent::Header { data, .. } ==> data@.len() >= 12 ==> crypto::has_header(
            data@,
        ) ==> {
            &&& after.chunks matches Some(c) && {
                &&& c.key == key
                &&& c.prefix == data@.subrange(4, 12)
                &&& c.next == before.completed
                &&& c.count == crypto::chunks_of(before.size as nat)
                &&& c.last_len == before.size - (c.count - 1) * 0x10_0000 + 16
            }
            &&& before.completed + 1 < crypto::chunks_of(before.size as nat) ==> a == (
            DownloadAction::ReadExactly { len: 0x10_0010 })
        },
        e is Bytes ==> (before.chunks matches Some(c) ==> {
            let opened = crypto::opens_to(
                c.key,
                crypto::nonce_of(c.prefix, c.next as u32, c.next + 1 == c.count),
                e->Bytes_data@,
            );
            &&& opened is Some ==> {
                &&& a matches DownloadAction::Write { data } && data@ == opened->0
                &&& after.chunks matches Some(d) && d.next == c.next + 1 && d.key == c.key
                    && d.prefix == c.prefix && d.count == c.count && d.last_len == c.last_len
            }
            &&& opened is None ==> !(a is Write) && after.chunks is None
        }),
        e is Written ==> (before.chunks matches Some(c) ==> {
            &&& c.next + 1 < c.count ==> a == (DownloadAction::ReadExactly { len: 0x10_0010 })
            &&& c.next + 1 == c.count ==> a == (DownloadAction::ReadExactly {
                len: c.last_len as usize,
            })
            &&& c.next >= c.count ==> a == (DownloadAction::Rename { cut_to: None })
        }),
{
}

/// A failed try is followed by another after a wait, as long as tries are left and
/// nobody has cancelled; the next one begins anew. Otherwise the download is given
/// up.
pub proof fn law_failures_are_tried_again(
    before: TaskView,
    content_key: Option<Seq<u8>>,
    cancelled: bool,
    after: TaskView,
    a: DownloadAction,
)
    requires
        transition(before, content_key, DownloadEvent::Failed { cancelled }, after, a),
    ensures
        !cancelled && before.tries.attempt < before.tries.retries ==> {
            &&& a == (DownloadAction::HealAndWait {
                ms: download::backoff((before.tries.attempt + 1) as u32),
            })
            &&& after.phase == Phase::Idle
            &&& after.tries.attempt == before.tries.attempt + 1
            &&& after.tries.retries == before.tries.retries
        },
        cancelled || before.tries.attempt >= before.tries.retries ==> a is GiveUp && after.phase
            == Phase::Over,
        after.chunks is None,
        after.size == before.size,
{
}

} // verus!
