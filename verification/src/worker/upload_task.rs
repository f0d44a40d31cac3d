//! The upload of one file, from the first try to the last.
//!
//! The owner performs an action, and tells the task what came of it.

use crate::crypto;
use crate::crypto::{CryptoError, VaultKeys};
use crate::worker::download::Tries;
use crate::worker::parts;
use crate::worker::parts::PartStream;
use crate::worker::upload;
use vstd::prelude::*;
use vstd::string::*;

verus! {

/// The tag that a backend gives to a part that it has stored.
#[derive(Debug)]
pub struct PartTag {
    pub number: i32,
    pub tag: String,
}

/// What the owner does next.
#[derive(Debug)]
pub enum UploadAction {
    /// Start the file's row, and make the directories above its key.
    Prepare,
    /// Read the whole file.
    ReadWhole,
    /// Store an object.
    Put { body: Vec<u8> },
    /// Start an upload in parts.
    StartParts,
    /// Open the file, and see how long it is.
    OpenFile,
    /// Read the next chunk, as much of it as there is.
    ReadChunk,
    /// Send a part.
    SendPart { number: i32, data: Vec<u8> },
    /// Complete the upload from its parts.
    Complete { tags: Vec<PartTag> },
    /// Give the upload in parts up.
    Abort,
    /// See to the connection, wait, and begin again.
    HealAndWait,
    /// The file is stored; so many bytes are still to be counted.
    Done { credit: u64 },
    /// Report the failure: this one, or the one that the owner has met.
    GiveUp { fault: Option<CryptoError> },
}

/// What came of it.
#[derive(Debug)]
pub enum UploadEvent {
    /// A try begins.
    Begin { cancelled: bool },
    Prepared,
    Whole { data: Vec<u8>, cancelled: bool },
    Stored,
    PartsStarted,
    FileOpened { len: u64 },
    Chunk { data: Vec<u8>, cancelled: bool },
    PartSent { tag: String },
    Completed,
    Aborted { cancelled: bool },
    /// What was to be done failed, or was cancelled.
    Failed { cancelled: bool },
}

/// Where an upload stands.
#[derive(Clone, Copy, Debug, PartialEq, Eq, Structural)]
pub enum UploadPhase {
    Idle,
    Preparing,
    ReadingWhole,
    Storing,
    StartingParts,
    OpeningFile,
    ReadingChunk,
    SendingPart,
    Completing,
    Aborting,
    Over,
}

/// The upload of one file.
pub struct UploadTask {
    plain_len: u64,
    in_parts: bool,
    part_size: usize,
    encrypted: bool,
    tries: Tries,
    phase: UploadPhase,
    stream: Option<PartStream>,
    sending: i32,
    last: bool,
    tags: Vec<PartTag>,
    fault: Option<CryptoError>,
}

/// The upload of one file.
pub struct UploadView {
    pub plain_len: u64,
    pub in_parts: bool,
    pub part_size: usize,
    pub encrypted: bool,
    pub tries: Tries,
    pub phase: UploadPhase,
    pub stream: Option<PartStream>,
    /// The number of the part that is being sent.
    pub sending: i32,
    /// Whether it is the last one.
    pub last: bool,
    /// The parts that were stored, in order.
    pub tags: Seq<(i32, Seq<char>)>,
    /// Why the upload is being given up, if the task has met it.
    pub fault: Option<CryptoError>,
}

/// The parts that were stored.
pub open spec fn tag_views(list: Seq<PartTag>) -> Seq<(i32, Seq<char>)> {
    list.map_values(|t: PartTag| (t.number, t.tag@))
}

impl View for UploadTask {
    type V = UploadView;

    closed spec fn view(&self) -> UploadView {
        UploadView {
            plain_len: self.plain_len,
            in_parts: self.in_parts,
            part_size: self.part_size,
            encrypted: self.encrypted,
            tries: self.tries,
            phase: self.phase,
            stream: self.stream,
            sending: self.sending,
            last: self.last,
            tags: tag_views(self.tags@),
            fault: self.fault,
        }
    }
}

/// Whether a phase lies within an upload in parts that was started.
pub open spec fn in_started_parts(p: UploadPhase) -> bool {
    p == UploadPhase::OpeningFile || p == UploadPhase::ReadingChunk || p
        == UploadPhase::SendingPart || p == UploadPhase::Completing
}

/// Whether an event can come in a phase.
pub open spec fn expected(t: UploadView, e: UploadEvent) -> bool {
    match e {
        UploadEvent::Begin { .. } => t.phase == UploadPhase::Idle,
        UploadEvent::Prepared => t.phase == UploadPhase::Preparing,
        UploadEvent::Whole { .. } => t.phase == UploadPhase::ReadingWhole,
        UploadEvent::Stored => t.phase == UploadPhase::Storing,
        UploadEvent::PartsStarted => t.phase == UploadPhase::StartingParts,
        UploadEvent::FileOpened { .. } => t.phase == UploadPhase::OpeningFile,
        UploadEvent::Chunk { data, .. } => t.phase == UploadPhase::ReadingChunk && (
        t.stream matches Some(s) ==> {
            &&& data@.len() <= crypto::CHUNK
            &&& s.read_total() + data@.len() <= u64::MAX
            &&& s.parts().len() + 1 < i32::MAX
        }),
        UploadEvent::PartSent { .. } => t.phase == UploadPhase::SendingPart,
        UploadEvent::Completed => t.phase == UploadPhase::Completing,
        UploadEvent::Aborted { .. } => t.phase == UploadPhase::Aborting,
        UploadEvent::Failed { .. } => t.phase != UploadPhase::Idle && t.phase
            != UploadPhase::Aborting && t.phase != UploadPhase::Over,
    }
}

/// The task when a try has failed: there is another, or it is given up.
pub open spec fn after_try(t: UploadView, cancelled: bool) -> UploadView {
    let clear = UploadView {
        stream: None,
        tags: Seq::empty(),
        fault: None,
        ..t
    };
    if t.tries.attempt < t.tries.retries && !cancelled {
        UploadView {
            tries: Tries { attempt: (t.tries.attempt + 1) as u32, ..t.tries },
            phase: UploadPhase::Idle,
            ..clear
        }
    } else {
        UploadView { phase: UploadPhase::Over, ..clear }
    }
}

/// Whether the parts of a stream are the whole object of its chunks: what the
/// chunks hold in clear, or what decrypts to it.
pub open spec fn is_whole(s: PartStream) -> bool {
    let stored = crypto::joined(s.parts(), s.parts().len());
    let plain = crypto::joined(s.chunks(), s.chunks().len());
    match s.cipher() {
        Some(cipher) => crypto::decrypted(cipher.0, stored) == Ok::<Seq<u8>, CryptoError>(plain),
        None => stored == plain,
    }
}

/// Whether the key of a stream, if it has one, was overwritten.
pub open spec fn has_no_key(s: PartStream) -> bool {
    s.cipher() matches Some((key, _)) ==> key == crypto::zeroes(32)
}

/// Whether an action is what follows a try that has failed.
pub open spec fn follows_try(
    a: UploadAction,
    t: UploadView,
    cancelled: bool,
    fault: Option<CryptoError>,
) -> bool {
    if t.tries.attempt < t.tries.retries && !cancelled {
        a is HealAndWait
    } else {
        a matches UploadAction::GiveUp { fault: f } && f == fault
    }
}

/// Whether `after` and the action are what follows a failure: an upload in parts
/// that was started is given up at the backend first.
pub open spec fn fails(
    before: UploadView,
    cancelled: bool,
    fault: Option<CryptoError>,
    after: UploadView,
    a: UploadAction,
) -> bool {
    if in_started_parts(before.phase) {
        &&& after == (UploadView {
            phase: UploadPhase::Aborting,
            stream: None,
            tags: Seq::empty(),
            fault,
            ..before
        })
        &&& a is Abort
    } else {
        after == after_try(before, cancelled) && follows_try(a, before, cancelled, fault)
    }
}

/// Whether `after` and the action are what follows an event.
pub open spec fn transition(
    before: UploadView,
    content_key: Option<Seq<u8>>,
    e: UploadEvent,
    after: UploadView,
    a: UploadAction,
) -> bool {
    match e {
        UploadEvent::Begin { cancelled } => if cancelled {
            fails(before, true, None, after, a)
        } else {
            after == (UploadView { phase: UploadPhase::Preparing, ..before }) && a is Prepare
        },
        UploadEvent::Prepared => if before.in_parts {
            after == (UploadView { phase: UploadPhase::StartingParts, ..before })
                && a is StartParts
        } else {
            after == (UploadView { phase: UploadPhase::ReadingWhole, ..before })
                && a is ReadWhole
        },
        UploadEvent::Whole { data, cancelled } => match content_key {
            Some(key) => if crypto::chunks_of(data@.len()) > u32::MAX {
                fails(before, cancelled, Some(CryptoError::FileTooLarge), after, a)
            } else {
                &&& after == (UploadView { phase: UploadPhase::Storing, ..before })
                &&& a matches UploadAction::Put { body } && crypto::decrypted(key, body@) == Ok::<
                    Seq<u8>,
                    CryptoError,
                >(data@)
            },
            None => {
                &&& after == (UploadView { phase: UploadPhase::Storing, ..before })
                &&& a matches UploadAction::Put { body } && body@ == data@
            },
        },
        UploadEvent::Stored => {
            &&& after == (UploadView { phase: UploadPhase::Over, ..before })
            &&& a matches UploadAction::Done { credit } && credit == before.plain_len
        },
        UploadEvent::PartsStarted => after == (UploadView {
            phase: UploadPhase::OpeningFile,
            ..before
        }) && a is OpenFile,
        UploadEvent::FileOpened { len } => {
            &&& after == (UploadView {
                phase: UploadPhase::ReadingChunk,
                stream: after.stream,
                ..before
            })
            &&& a is ReadChunk
            &&& after.stream matches Some(s) && {
                &&& s.file_len() == len
                &&& s.part_size() == before.part_size
                &&& s.read_total() == 0
                &&& s.chunks().len() == 0
                &&& s.parts().len() == 0
                &&& s.pending() == parts::object_so_far(s.cipher(), Seq::empty())
                &&& match content_key {
                    Some(key) => s.cipher() matches Some((k, prefix)) && k == key,
                    None => s.cipher() is None,
                }
            }
        },
        UploadEvent::Chunk { data, cancelled } => {
            let s = before.stream->0;
            if s.cipher() is Some && s.chunks().len() == u32::MAX {
                fails(before, cancelled, Some(CryptoError::FileTooLarge), after, a)
            } else {
                let last = s.read_total() + data@.len() >= s.file_len() || data@.len()
                    < crypto::CHUNK;
                after.stream matches Some(t) && {
                    &&& t.chunks() == s.chunks().push(data@)
                    &&& t.cipher() == s.cipher()
                    &&& t.file_len() == s.file_len()
                    &&& t.part_size() == s.part_size()
                    &&& t.read_total() == s.read_total() + data@.len()
                    &&& t.finished() == last
                    &&& match a {
                        UploadAction::SendPart { number, data: sent } => {
                            &&& after == (UploadView {
                                phase: UploadPhase::SendingPart,
                                stream: after.stream,
                                sending: number,
                                last,
                                ..before
                            })
                            &&& number == s.parts().len() + 1
                            &&& t.parts() == s.parts().push(sent@)
                            &&& t.pending().len() == 0
                            &&& last || sent@.len() >= s.part_size()
                            &&& crypto::joined(t.parts(), t.parts().len()) == if last {
                                parts::object_of(t.cipher(), t.chunks())
                            } else {
                                parts::object_so_far(t.cipher(), t.chunks())
                            }
                            &&& last ==> is_whole(t)
                        },
                        UploadAction::ReadChunk => {
                            &&& !last
                            &&& t.parts() == s.parts()
                            &&& t.pending().len() < s.part_size()
                            &&& crypto::joined(t.parts(), t.parts().len()) + t.pending()
                                == parts::object_so_far(t.cipher(), t.chunks())
                            &&& after == (UploadView { stream: after.stream, ..before })
                        },
                        _ => false,
                    }
                }
            }
        },
        UploadEvent::PartSent { tag } => {
            let tags = before.tags.push((before.sending, tag@));
            if before.last {
                &&& after == (UploadView {
                    phase: UploadPhase::Completing,
                    tags: Seq::empty(),
                    ..before
                })
                &&& a matches UploadAction::Complete { tags: given } && tag_views(given@) == tags
            } else {
                &&& after == (UploadView { phase: UploadPhase::ReadingChunk, tags, ..before })
                &&& a is ReadChunk
            }
        },
        UploadEvent::Completed => {
            &&& after == (UploadView { phase: UploadPhase::Over, ..before })
            &&& a matches UploadAction::Done { credit } && credit == 0
        },
        UploadEvent::Aborted { cancelled } => after == after_try(before, cancelled)
            && follows_try(a, before, cancelled, before.fault),
        UploadEvent::Failed { cancelled } => fails(before, cancelled, None, after, a),
    }
}

impl UploadTask {
    /// What holds between any two events.
    pub closed spec fn well_formed(&self) -> bool {
        &&& self.part_size >= parts::MIN_PART
        &&& match self.stream {
            Some(s) => {
                &&& s.well_formed()
                &&& s.part_size() == self.part_size
                &&& self.phase == UploadPhase::ReadingChunk ==> !s.finished()
                &&& self.phase == UploadPhase::SendingPart && !self.last ==> !s.finished()
            },
            None => true,
        }
        &&& self.phase == UploadPhase::ReadingChunk || self.phase == UploadPhase::SendingPart
            ==> self.stream is Some
    }

    /// The upload of a file of so many bytes: in parts of the given size where it
    /// is larger than the threshold. It may be tried again so many times.
    pub fn new(
        plain_len: u64,
        threshold: u64,
        part_size: usize,
        encrypted: bool,
        retries: u32,
    ) -> (r: Self)
        requires
            part_size >= parts::MIN_PART,
        ensures
            r.well_formed(),
            r@ == (UploadView {
                plain_len,
                in_parts: plain_len > threshold,
                part_size,
                encrypted,
                tries: Tries { attempt: 0, retries },
                phase: UploadPhase::Idle,
                stream: None,
                sending: 0,
                last: false,
                tags: Seq::empty(),
                fault: None,
            }),
    {
        let r = UploadTask {
            plain_len,
            in_parts: upload::goes_in_parts(plain_len, threshold),
            part_size,
            encrypted,
            tries: Tries::new(retries),
            phase: UploadPhase::Idle,
            stream: None,
            sending: 0,
            last: false,
            tags: Vec::new(),
            fault: None,
        };
        assert(r@.tags =~= Seq::empty());
        r
    }

    /// Lets the parts go, after the key that they are sealed under was
    /// overwritten.
    fn drop_stream(&mut self) -> (r: Option<PartStream>)
        ensures
            final(self)@ == (UploadView { stream: None, ..old(self)@ }),
            r is Some == old(self)@.stream is Some,
            r matches Some(s) ==> has_no_key(s),
    {
        if let Some(stream) = &mut self.stream {
            stream.wipe();
        }
        let mut gone: Option<PartStream> = None;
        std::mem::swap(&mut gone, &mut self.stream);
        gone
    }

    /// Ends the task: nothing of it is left to do, and the key that it holds is
    /// overwritten.
    pub fn wipe(&mut self)
        requires
            old(self).well_formed(),
        ensures
            final(self).well_formed(),
            final(self)@ == (UploadView {
                stream: final(self)@.stream,
                phase: UploadPhase::Over,
                ..old(self)@
            }),
            final(self)@.stream is Some == old(self)@.stream is Some,
            final(self)@.stream matches Some(s) ==> has_no_key(s) && s.parts()
                == old(self)@.stream->0.parts() && s.chunks() == old(self)@.stream->0.chunks(),
    {
        if let Some(stream) = &mut self.stream {
            stream.wipe();
        }
        self.phase = UploadPhase::Over;
    }

    fn try_again(&mut self, cancelled: bool, fault: Option<CryptoError>) -> (r: UploadAction)
        requires
            old(self).well_formed(),
        ensures
            final(self).well_formed(),
            final(self)@ == after_try(old(self)@, cancelled),
            follows_try(r, old(self)@, cancelled, fault),
    {
        let _ = self.drop_stream();
        self.tags = Vec::new();
        self.fault = None;
        assert(tag_views(self.tags@) =~= Seq::empty());
        if self.tries.again(cancelled) {
            self.phase = UploadPhase::Idle;
            UploadAction::HealAndWait
        } else {
            self.phase = UploadPhase::Over;
            UploadAction::GiveUp { fault }
        }
    }

    fn failed(&mut self, cancelled: bool, fault: Option<CryptoError>) -> (r: UploadAction)
        requires
            old(self).well_formed(),
        ensures
            final(self).well_formed(),
            fails(old(self)@, cancelled, fault, final(self)@, r),
    {
        let started = match self.phase {
            UploadPhase::OpeningFile => true,
            UploadPhase::ReadingChunk => true,
            UploadPhase::SendingPart => true,
            UploadPhase::Completing => true,
            _ => false,
        };
        if started {
            self.phase = UploadPhase::Aborting;
            let _ = self.drop_stream();
            self.tags = Vec::new();
            self.fault = fault;
            assert(tag_views(self.tags@) =~= Seq::empty());
            UploadAction::Abort
        } else {
            self.try_again(cancelled, fault)
        }
    }

    /// Takes in what came of the last action, and says what to do next.
    pub fn step(&mut self, keys: Option<&VaultKeys>, event: UploadEvent) -> (r: UploadAction)
        requires
            old(self).well_formed(),
            keys is Some == old(self)@.encrypted,
            expected(old(self)@, event),
        ensures
            final(self).well_formed(),
            transition(
                old(self)@,
                match keys {
                    Some(k) => Some(k.content_key()),
                    None => None,
                },
                event,
                final(self)@,
                r,
            ),
    {
        match event {
            UploadEvent::Begin { cancelled } => {
                if cancelled {
                    self.failed(true, None)
                } else {
                    self.phase = UploadPhase::Preparing;
                    UploadAction::Prepare
                }
            },
            UploadEvent::Prepared => {
                if self.in_parts {
                    self.phase = UploadPhase::StartingParts;
                    UploadAction::StartParts
                } else {
                    self.phase = UploadPhase::ReadingWhole;
                    UploadAction::ReadWhole
                }
            },
            UploadEvent::Whole { data, cancelled } => match keys {
                Some(k) => match crypto::encrypt_bytes(k, data.as_slice()) {
                    Ok(body) => {
                        self.phase = UploadPhase::Storing;
                        UploadAction::Put { body }
                    },
                    Err(e) => self.failed(cancelled, Some(e)),
                },
                None => {
                    self.phase = UploadPhase::Storing;
                    UploadAction::Put { body: data }
                },
            },
            UploadEvent::Stored => {
                self.phase = UploadPhase::Over;
                UploadAction::Done { credit: self.plain_len }
            },
            UploadEvent::PartsStarted => {
                self.phase = UploadPhase::OpeningFile;
                UploadAction::OpenFile
            },
            UploadEvent::FileOpened { len } => {
                self.stream = Some(PartStream::new(keys, self.part_size, len));
                self.phase = UploadPhase::ReadingChunk;
                UploadAction::ReadChunk
            },
            UploadEvent::Chunk { data, cancelled } => {
                let fed = match &mut self.stream {
                    Some(stream) => stream.feed(data.as_slice()),
                    None => Ok(None),
                };
                match fed {
                    Ok(Some(part)) => {
                        self.phase = UploadPhase::SendingPart;
                        self.sending = part.number;
                        self.last = part.last;
                        UploadAction::SendPart { number: part.number, data: part.data }
                    },
                    Ok(None) => UploadAction::ReadChunk,
                    Err(e) => {
                        self.phase = UploadPhase::Completing;
                        self.failed(cancelled, Some(e))
                    },
                }
            },
            UploadEvent::PartSent { tag } => {
                let ghost before = tag_views(self.tags@);
                let ghost one = (self.sending, tag@);
                self.tags.push(PartTag { number: self.sending, tag });
                assert(tag_views(self.tags@) =~= before.push(one));
                if self.last {
                    let mut tags: Vec<PartTag> = Vec::new();
                    std::mem::swap(&mut tags, &mut self.tags);
                    assert(tag_views(self.tags@) =~= Seq::empty());
                    self.phase = UploadPhase::Completing;
                    UploadAction::Complete { tags }
                } else {
                    self.phase = UploadPhase::ReadingChunk;
                    UploadAction::ReadChunk
                }
            },
            UploadEvent::Completed => {
                self.phase = UploadPhase::Over;
                UploadAction::Done { credit: 0 }
            },
            UploadEvent::Aborted { cancelled } => {
                let fault = self.fault;
                self.try_again(cancelled, fault)
            },
            UploadEvent::Failed { cancelled } => self.failed(cancelled, None),
        }
    }
}

/// What holds of the parts of an upload: they are numbered from one on, each that
/// was stored has its tag, and the last one completes the object.
pub open spec fn in_order(t: UploadView) -> bool {
    &&& forall|i: int| 0 <= i < t.tags.len() ==> (#[trigger] t.tags[i]).0 == i + 1
    &&& match t.phase {
        UploadPhase::ReadingChunk => t.stream matches Some(s) && s.parts().len() == t.tags.len(),
        UploadPhase::SendingPart => t.stream matches Some(s) && {
            &&& s.parts().len() == t.tags.len() + 1
            &&& t.sending == s.parts().len()
            &&& t.last == s.finished()
            &&& t.last ==> is_whole(s)
        },
        _ => t.tags.len() == 0,
    }
}

/// An upload in parts is completed from all of its parts, once each and in order,
/// and together they are the whole object; every step keeps the order.
pub proof fn law_parts_are_whole(
    before: UploadView,
    content_key: Option<Seq<u8>>,
    e: UploadEvent,
    after: UploadView,
    a: UploadAction,
)
    requires
        in_order(before),
        expected(before, e),
        transition(before, content_key, e, after, a),
    ensures
        in_order(after),
        a matches UploadAction::Complete { tags } ==> {
            &&& after.stream matches Some(s)
            &&& tags@.len() == s.parts().len()
            &&& forall|i: int| 0 <= i < tags@.len() ==> (#[trigger] tags@[i]).number == i + 1
            &&& is_whole(s)
        },
{
    if let UploadAction::Complete { tags } = a {
        let views = tag_views(tags@);
        assert(e is PartSent);
        assert(views.len() == before.tags.len() + 1);
        assert(views.drop_last() =~= before.tags);
        assert forall|i: int| 0 <= i < tags@.len() implies (#[trigger] tags@[i]).number == i + 1 by {
            assert(views[i].0 == tags@[i].number);
            if i < before.tags.len() {
                assert(views.drop_last()[i] == views[i]);
                assert(before.tags[i].0 == i + 1);
            }
        }
    }
}

/// No upload in parts is left behind: whatever fails after it was started, it is
/// given up at the backend before anything else, and before it is tried again.
pub proof fn law_parts_are_aborted(
    before: UploadView,
    content_key: Option<Seq<u8>>,
    e: UploadEvent,
    after: UploadView,
    a: UploadAction,
)
    requires
        in_started_parts(before.phase),
        expected(before, e),
        transition(before, content_key, e, after, a),
    ensures
        in_started_parts(after.phase) || (a is Abort && after.phase == UploadPhase::Aborting) || (
        e is Completed && a is Done),
{
}

/// A file that is not larger than the threshold is read whole and stored as it is, or
/// sealed so that it decrypts to the file; all of it is then counted. A larger one is
/// sent in parts, of which nothing is counted at the end.
pub proof fn law_upload_stores_the_file(
    before: UploadView,
    content_key: Option<Seq<u8>>,
    e: UploadEvent,
    after: UploadView,
    a: UploadAction,
)
    requires
        transition(before, content_key, e, after, a),
    ensures
        e == (UploadEvent::Begin { cancelled: false }) ==> a is Prepare,
        e is Prepared && before.in_parts ==> a is StartParts,
        e is Prepared && !before.in_parts ==> a is ReadWhole,
        e matches UploadEvent::Whole { data, .. } ==> {
            &&& content_key is None ==> (a matches UploadAction::Put { body } && body@ == data@)
            &&& content_key matches Some(key) ==> crypto::chunks_of(data@.len()) <= u32::MAX ==> (
            a matches UploadAction::Put { body } && crypto::decrypted(key, body@) == Ok::<
                Seq<u8>,
                CryptoError,
            >(data@))
            &&& content_key is Some && crypto::chunks_of(data@.len()) > u32::MAX ==> a is HealAndWait
                || a is GiveUp || a is Abort
        },
        e is Stored ==> a == (UploadAction::Done { credit: before.plain_len }),
        e is PartsStarted ==> a is OpenFile,
        e is FileOpened ==> a is ReadChunk,
        e is Completed ==> a == (UploadAction::Done { credit: 0 }),
        after.plain_len == before.plain_len,
        after.in_parts == before.in_parts,
        after.part_size == before.part_size,
        after.encrypted == before.encrypted,
{
}

/// A failed try is followed by another as long as tries are left and nobody has
/// cancelled; otherwise the upload is given up, for the fault that the task has met.
pub proof fn law_uploads_are_tried_again(
    before: UploadView,
    content_key: Option<Seq<u8>>,
    e: UploadEvent,
    cancelled: bool,
    after: UploadView,
    a: UploadAction,
)
    requires
        transition(before, content_key, e, after, a),
        e == (UploadEvent::Aborted { cancelled }) || (e == (UploadEvent::Failed { cancelled })
            && !in_started_parts(before.phase)),
    ensures
        !cancelled && before.tries.attempt < before.tries.retries ==> {
            &&& a is HealAndWait
            &&& after.phase == UploadPhase::Idle
            &&& after.tries.attempt == before.tries.attempt + 1
            &&& after.tries.retries == before.tries.retries
        },
        cancelled || before.tries.attempt >= before.tries.retries ==> a is GiveUp && after.phase
            == UploadPhase::Over,
        e is Aborted && a is GiveUp ==> a == (UploadAction::GiveUp { fault: before.fault }),
        after.stream is None,
        after.tags.len() == 0,
{
}

/// Every chunk that is read goes out: a part is sent when enough is gathered or the
/// file ends, and the file ends where it is as long as it was or a chunk is short. A
/// part that was stored is noted under its number, and the next chunk is read.
pub proof fn law_chunks_go_out(
    before: UploadView,
    content_key: Option<Seq<u8>>,
    e: UploadEvent,
    after: UploadView,
    a: UploadAction,
)
    requires
        transition(before, content_key, e, after, a),
        before.stream is Some,
    ensures
        e matches UploadEvent::Chunk { data, .. } ==> {
            let s = before.stream->0;
            let ends = s.read_total() + data@.len() >= s.file_len() || data@.len() < 0x10_0000;
            s.cipher() is None || s.chunks().len() < u32::MAX ==> (after.stream matches Some(t) && {
                &&& t.chunks() == s.chunks().push(data@)
                &&& ends ==> a is SendPart && after.last && is_whole(t)
                &&& !ends ==> a is SendPart || (a is ReadChunk && t.pending().len() < s.part_size())
                &&& a matches UploadAction::SendPart { number, data: sent } ==> {
                    &&& number == s.parts().len() + 1
                    &&& after.sending == number
                    &&& t.parts() == s.parts().push(sent@)
                    &&& ends || sent@.len() >= s.part_size()
                }
            })
        },
        e matches UploadEvent::PartSent { tag } ==> {
            &&& !before.last ==> a is ReadChunk && after.tags == before.tags.push(
                (before.sending, tag@),
            )
            &&& before.last ==> (a matches UploadAction::Complete { tags } && tag_views(tags@)
                == before.tags.push((before.sending, tag@)))
        },
{
    if let UploadEvent::Chunk { data, .. } = e {
        let s = before.stream->0;
        if s.cipher() is None || s.chunks().len() != u32::MAX {
            assert(after.stream is Some);
        }
    }
}

} // verus!
