//! A file on its way out, in parts.
//!
//! A file is read chunk by chunk. Each chunk is sealed in an encrypted session,
//! and what is gathered is sent as a part as soon as it is long enough; the last
//! part takes what is left. The parts one after the other are the stored object.

use crate::crypto;
use crate::crypto::{CryptoError, Encryptor, VaultKeys};
use crate::primitives;
use vstd::prelude::*;

verus! {

/// The least length of a part that is not the last.
pub const MIN_PART: usize = 0x50_0000;

/// A part to send.
#[derive(Debug)]
pub struct Part {
    /// Its number, from one.
    pub number: i32,
    pub data: Vec<u8>,
    /// Whether no part follows.
    pub last: bool,
}

/// A chunk before the last one, sealed.
pub open spec fn inner_sealed(key: Seq<u8>, prefix: Seq<u8>, chunks: Seq<Seq<u8>>, i: int) -> Seq<
    u8,
> {
    primitives::chacha_sealed(key, crypto::nonce_of(prefix, i as u32, false), chunks[i])
}

/// The first `k` chunks, sealed as chunks before the last one.
pub open spec fn inner_file(key: Seq<u8>, prefix: Seq<u8>, chunks: Seq<Seq<u8>>, k: nat) -> Seq<u8>
    decreases k,
{
    if k == 0 {
        crypto::header_of(prefix)
    } else {
        inner_file(key, prefix, chunks, (k - 1) as nat) + inner_sealed(key, prefix, chunks, k - 1)
    }
}

/// Whether a chunk before the last one opens again.
pub open spec fn inner_opens(key: Seq<u8>, prefix: Seq<u8>, chunks: Seq<Seq<u8>>, i: int) -> bool {
    &&& inner_sealed(key, prefix, chunks, i).len() == chunks[i].len() + 16
    &&& crypto::opens_to(
        key,
        crypto::nonce_of(prefix, i as u32, false),
        inner_sealed(key, prefix, chunks, i),
    ) == Some(chunks[i])
}

/// Chunks before the last one are sealed the same whatever comes after them.
proof fn lemma_inner_file(key: Seq<u8>, prefix: Seq<u8>, a: Seq<Seq<u8>>, b: Seq<Seq<u8>>, k: nat)
    requires
        k <= a.len() <= b.len(),
        forall|i: int| 0 <= i < k ==> a[i] == b[i],
    ensures
        inner_file(key, prefix, a, k) == inner_file(key, prefix, b, k),
        k < b.len() ==> inner_file(key, prefix, b, k) == crypto::header_of(prefix)
            + crypto::sealed_chunks(key, prefix, b, k),
    decreases k,
{
    if k > 0 {
        lemma_inner_file(key, prefix, a, b, (k - 1) as nat);
        if k < b.len() {
            assert(inner_sealed(key, prefix, b, k - 1) == crypto::sealed_chunk(
                key,
                prefix,
                b,
                k - 1,
            ));
            assert(crypto::header_of(prefix) + crypto::sealed_chunks(key, prefix, b, (k - 1) as nat)
                + inner_sealed(key, prefix, b, k - 1) =~= crypto::header_of(prefix)
                + crypto::sealed_chunks(key, prefix, b, k));
        }
    } else {
        assert(crypto::header_of(prefix) + Seq::<u8>::empty() =~= crypto::header_of(prefix));
    }
}

/// Joining one more piece.
proof fn lemma_joined_push(list: Seq<Seq<u8>>, piece: Seq<u8>, k: nat)
    requires
        k <= list.len(),
    ensures
        crypto::joined(list.push(piece), k) == crypto::joined(list, k),
    decreases k,
{
    if k > 0 {
        lemma_joined_push(list, piece, (k - 1) as nat);
    }
}

/// What the chunks of a file are stored as: themselves, or sealed under a key
/// and a file nonce.
pub open spec fn object_of(cipher: Option<(Seq<u8>, Seq<u8>)>, chunks: Seq<Seq<u8>>) -> Seq<u8> {
    match cipher {
        Some((key, prefix)) => crypto::sealed_file(key, prefix, chunks),
        None => crypto::joined(chunks, chunks.len()),
    }
}

/// What the chunks that were read so far are stored as while more follow.
pub open spec fn object_so_far(
    cipher: Option<(Seq<u8>, Seq<u8>)>,
    chunks: Seq<Seq<u8>>,
) -> Seq<u8> {
    match cipher {
        Some((key, prefix)) => inner_file(key, prefix, chunks, chunks.len()),
        None => crypto::joined(chunks, chunks.len()),
    }
}

/// A file on its way out.
pub struct PartStream {
    encryptor: Option<Encryptor>,
    part_size: usize,
    buf: Vec<u8>,
    next_part: i32,
    read_total: u64,
    file_len: u64,
    finished: bool,
    chunks: Ghost<Seq<Seq<u8>>>,
    parts: Ghost<Seq<Seq<u8>>>,
}

impl PartStream {
    /// The key and the file nonce that chunks are sealed under, if they are.
    pub closed spec fn cipher(&self) -> Option<(Seq<u8>, Seq<u8>)> {
        match self.encryptor {
            Some(e) => Some((e.key(), e.prefix())),
            None => None,
        }
    }

    /// The length from which gathered bytes are sent as a part.
    pub closed spec fn part_size(&self) -> usize {
        self.part_size
    }

    /// The length that the file had when it was opened.
    pub closed spec fn file_len(&self) -> u64 {
        self.file_len
    }

    /// How many bytes were read.
    pub closed spec fn read_total(&self) -> u64 {
        self.read_total
    }

    /// The chunks that were read.
    pub closed spec fn chunks(&self) -> Seq<Seq<u8>> {
        self.chunks@
    }

    /// The parts that were sent.
    pub closed spec fn parts(&self) -> Seq<Seq<u8>> {
        self.parts@
    }

    /// The bytes that were gathered for the next part.
    pub closed spec fn pending(&self) -> Seq<u8> {
        self.buf@
    }

    /// Whether the last chunk was read.
    pub closed spec fn finished(&self) -> bool {
        self.finished
    }

    /// What holds between any two chunks: the parts and what is pending are the
    /// object so far, and every part is long enough.
    pub closed spec fn well_formed(&self) -> bool {
        &&& self.part_size >= MIN_PART
        &&& self.next_part == self.parts@.len() + 1
        &&& self.cipher() matches Some((key, prefix)) ==> prefix.len() == 8
        &&& !self.finished ==> {
            &&& crypto::joined(self.parts@, self.parts@.len()) + self.buf@ == object_so_far(
                self.cipher(),
                self.chunks@,
            )
            &&& forall|i: int|
                0 <= i < self.chunks@.len() ==> (#[trigger] self.chunks@[i]).len() == 0x10_0000
            &&& forall|i: int|
                0 <= i < self.parts@.len() ==> (#[trigger] self.parts@[i]).len() >= self.part_size
            &&& match self.encryptor {
                Some(e) => {
                    &&& e.counter() == self.chunks@.len()
                    &&& forall|i: int|
                        0 <= i < self.chunks@.len() ==> #[trigger] inner_opens(
                            e.key(),
                            e.prefix(),
                            self.chunks@,
                            i,
                        )
                },
                None => true,
            }
        }
    }

    /// Starts a file of the given length. The object of an encrypted one starts
    /// with its header.
    pub fn start(encryptor: Option<Encryptor>, part_size: usize, file_len: u64) -> (r: Self)
        requires
            part_size >= MIN_PART,
            encryptor matches Some(e) ==> e.counter() == 0 && e.prefix().len() == 8,
        ensures
            r.well_formed(),
            r.cipher() == match encryptor {
                Some(e) => Some((e.key(), e.prefix())),
                None => None,
            },
            r.part_size() == part_size,
            r.file_len() == file_len,
            r.read_total() == 0,
            r.chunks() == Seq::<Seq<u8>>::empty(),
            r.parts() == Seq::<Seq<u8>>::empty(),
            r.pending() == object_so_far(r.cipher(), Seq::empty()),
            !r.finished(),
    {
        let mut buf: Vec<u8> = Vec::new();
        if let Some(e) = &encryptor {
            let header = e.header();
            buf.extend_from_slice(&header);
        }
        let r = PartStream {
            encryptor,
            part_size,
            buf,
            next_part: 1,
            read_total: 0,
            file_len,
            finished: false,
            chunks: Ghost(Seq::empty()),
            parts: Ghost(Seq::empty()),
        };
        assert(r.buf@ =~= object_so_far(r.cipher(), Seq::empty()));
        assert(Seq::<u8>::empty() + r.buf@ =~= r.buf@);
        r
    }

    /// Starts a file of the given length, under a random file nonce where the
    /// session is an encrypted one.
    pub fn new(keys: Option<&VaultKeys>, part_size: usize, file_len: u64) -> (r: Self)
        requires
            part_size >= MIN_PART,
        ensures
            r.well_formed(),
            match keys {
                Some(k) => r.cipher() matches Some((key, prefix)) && key == k.content_key()
                    && prefix.len() == 8,
                None => r.cipher() is None,
            },
            r.part_size() == part_size,
            r.file_len() == file_len,
            r.read_total() == 0,
            r.chunks() == Seq::<Seq<u8>>::empty(),
            r.parts() == Seq::<Seq<u8>>::empty(),
            r.pending() == object_so_far(r.cipher(), Seq::empty()),
            !r.finished(),
    {
        let encryptor = match keys {
            Some(k) => Some(Encryptor::new(k)),
            None => None,
        };
        Self::start(encryptor, part_size, file_len)
    }

    /// Takes the next chunk as it was read from the file: full, or shorter at the
    /// file's end. A chunk that reaches the file's length or is short is the last
    /// one. Returns the part that is to be sent now, if one is.
    pub fn feed(&mut self, chunk: &[u8]) -> (r: Result<Option<Part>, CryptoError>)
        requires
            old(self).well_formed(),
            !old(self).finished(),
            chunk@.len() <= crypto::CHUNK,
            old(self).read_total() + chunk@.len() <= u64::MAX,
            old(self).parts().len() + 1 < i32::MAX,
        ensures
            final(self).well_formed(),
            final(self).cipher() == old(self).cipher(),
            final(self).part_size() == old(self).part_size(),
            final(self).file_len() == old(self).file_len(),
            r is Err <==> old(self).cipher() is Some && old(self).chunks().len() == u32::MAX,
            r is Err ==> r == Err::<Option<Part>, CryptoError>(CryptoError::FileTooLarge),
            r matches Ok(sent) ==> {
                let last = old(self).read_total() + chunk@.len() >= old(self).file_len()
                    || chunk@.len() < crypto::CHUNK;
                let whole = crypto::joined(old(self).parts(), old(self).parts().len());
                &&& final(self).read_total() == old(self).read_total() + chunk@.len()
                &&& final(self).chunks() == old(self).chunks().push(chunk@)
                &&& final(self).finished() == last
                &&& match sent {
                    Some(part) => {
                        &&& part.number == old(self).parts().len() + 1
                        &&& part.last == last
                        &&& final(self).parts() == old(self).parts().push(part.data@)
                        &&& final(self).pending().len() == 0
                        &&& last || part.data@.len() >= old(self).part_size()
                        &&& crypto::joined(final(self).parts(), final(self).parts().len())
                            == if last {
                            object_of(old(self).cipher(), final(self).chunks())
                        } else {
                            object_so_far(old(self).cipher(), final(self).chunks())
                        }
                    },
                    None => {
                        &&& !last
                        &&& final(self).parts() == old(self).parts()
                        &&& final(self).pending().len() < old(self).part_size()
                        &&& whole + final(self).pending() == object_so_far(
                            old(self).cipher(),
                            final(self).chunks(),
                        )
                    },
                }
                &&& last ==> {
                    &&& crypto::joined(final(self).parts(), final(self).parts().len())
                        == object_of(old(self).cipher(), final(self).chunks())
                    &&& old(self).cipher() matches Some((key, prefix)) ==> crypto::decrypted(
                        key,
                        object_of(old(self).cipher(), final(self).chunks()),
                    ) == Ok::<Seq<u8>, CryptoError>(
                        crypto::joined(final(self).chunks(), final(self).chunks().len()),
                    )
                }
            },
    {
        let total: u64 = self.read_total + chunk.len() as u64;
        let last = total >= self.file_len || chunk.len() < crypto::CHUNK;
        let ghost before = self.chunks@;
        let ghost after = before.push(chunk@);
        let ghost cipher = self.cipher();
        let ghost gathered = self.buf@;
        let ghost sent = crypto::joined(self.parts@, self.parts@.len());
        let ghost n = before.len();
        proof {
            lemma_joined_push(before, chunk@, n);
            assert(crypto::joined(after, n + 1) == crypto::joined(before, n) + chunk@);
        }
        match &mut self.encryptor {
            Some(enc) => {
                let ghost key = enc.key();
                let ghost prefix = enc.prefix();
                match enc.seal_chunk(chunk, last) {
                    Ok(sealed) => {
                        proof {
                            lemma_sealed_next(key, prefix, before, chunk@, last, sealed@);
                        }
                        self.buf.extend_from_slice(sealed.as_slice());
                        assert(self.buf@ =~= gathered + sealed@);
                        assert(sent + (gathered + sealed@) =~= (sent + gathered) + sealed@);
                    },
                    Err(e) => {
                        return Err(e);
                    },
                }
            },
            None => {
                self.buf.extend_from_slice(chunk);
                assert(self.buf@ =~= gathered + chunk@);
                assert(sent + (gathered + chunk@) =~= (sent + gathered) + chunk@);
            },
        }
        self.read_total = total;
        self.chunks = Ghost(after);
        self.finished = last;
        if self.buf.len() >= self.part_size || last {
            let mut data: Vec<u8> = Vec::new();
            std::mem::swap(&mut data, &mut self.buf);
            let number: i32 = self.next_part;
            self.next_part = number + 1;
            proof {
                lemma_joined_push(self.parts@, data@, self.parts@.len());
                assert(Seq::<u8>::empty() =~= self.buf@);
                assert(sent + data@ + self.buf@ =~= sent + data@);
            }
            self.parts = Ghost(self.parts@.push(data@));
            Ok(Some(Part { number, data, last }))
        } else {
            Ok(None)
        }
    }

    /// Overwrites the key with zeroes, where there is one. No more chunks can be
    /// fed.
    pub fn wipe(&mut self)
        ensures
            final(self).cipher() == match old(self).cipher() {
                Some((_, prefix)) => Some((crypto::zeroes(32), prefix)),
                None => None,
            },
            final(self).finished(),
            final(self).part_size() == old(self).part_size(),
            final(self).file_len() == old(self).file_len(),
            final(self).read_total() == old(self).read_total(),
            final(self).chunks() == old(self).chunks(),
            final(self).parts() == old(self).parts(),
            final(self).pending() == old(self).pending(),
            old(self).well_formed() ==> final(self).well_formed(),
    {
        if let Some(enc) = &mut self.encryptor {
            enc.wipe();
        }
        self.finished = true;
    }
}

/// Sealing one more chunk makes the object so far one chunk longer; with the
/// last chunk it is a sealed file that opens to the chunks.
proof fn lemma_sealed_next(
    key: Seq<u8>,
    prefix: Seq<u8>,
    before: Seq<Seq<u8>>,
    chunk: Seq<u8>,
    last: bool,
    sealed: Seq<u8>,
)
    requires
        prefix.len() == 8,
        before.len() < u32::MAX,
        chunk.len() <= crypto::CHUNK,
        forall|i: int| 0 <= i < before.len() ==> (#[trigger] before[i]).len() == 0x10_0000,
        forall|i: int| 0 <= i < before.len() ==> #[trigger] inner_opens(key, prefix, before, i),
        sealed == primitives::chacha_sealed(
            key,
            crypto::nonce_of(prefix, before.len() as u32, last),
            chunk,
        ),
        sealed.len() == chunk.len() + 16,
        crypto::opens_to(key, crypto::nonce_of(prefix, before.len() as u32, last), sealed) == Some(
            chunk,
        ),
    ensures
        !last ==> {
            &&& inner_file(key, prefix, before, before.len()) + sealed == inner_file(
                key,
                prefix,
                before.push(chunk),
                before.len() + 1,
            )
            &&& forall|i: int|
                0 <= i < before.len() + 1 ==> #[trigger] inner_opens(
                    key,
                    prefix,
                    before.push(chunk),
                    i,
                )
        },
        last ==> {
            &&& inner_file(key, prefix, before, before.len()) + sealed == crypto::sealed_file(
                key,
                prefix,
                before.push(chunk),
            )
            &&& crypto::decrypted(key, crypto::sealed_file(key, prefix, before.push(chunk))) == Ok::<
                Seq<u8>,
                CryptoError,
            >(crypto::joined(before.push(chunk), before.len() + 1))
        },
{
    let after = before.push(chunk);
    let n = before.len();
    lemma_inner_file(key, prefix, before, after, n);
    if last {
        assert forall|j: int| 0 <= j < after.len() implies #[trigger] crypto::chunk_opens(
            key,
            prefix,
            after,
            j,
        ) by {
            if j < n {
                assert(inner_opens(key, prefix, before, j));
            }
        }
        assert forall|i: int| 0 <= i < after.len() - 1 implies (#[trigger] after[i]).len()
            == crypto::CHUNK by {
            assert(after[i] == before[i]);
        }
        crypto::lemma_file_opens(key, prefix, after);
        assert(crypto::header_of(prefix) + crypto::sealed_chunks(key, prefix, after, n) + sealed
            =~= crypto::sealed_file(key, prefix, after));
    } else {
        assert forall|i: int| 0 <= i < n + 1 implies #[trigger] inner_opens(
            key,
            prefix,
            after,
            i,
        ) by {
            if i < n {
                assert(inner_opens(key, prefix, before, i));
            }
        }
    }
}

} // verus!
