//! SMB shares: where a key lies in the share, and what its times mean.

use crate::text;
use vstd::prelude::*;
use vstd::string::*;

verus! {

/// How much is read or written at a time.
pub const STREAM_CHUNK: u64 = 0x4_0000;

/// What the user is told where no share is named.
pub const SHARE_REQUIRED: &'static str = "an SMB share name is required";

/// Whether a share is named.
pub fn has_share(share: &str) -> (r: bool)
    ensures
        r == (text::trim_space(share@).len() > 0),
{
    !text::trim(share).as_str().is_empty()
}

/// The directory inside the share that keys start at, without slashes around
/// it.
pub fn base_of(root_path: &str) -> (r: String)
    ensures
        r@ == text::trim_char(text::trim_space(root_path@), '/'),
{
    let trimmed = text::trim(root_path);
    text::trim_both(trimmed.as_str(), '/')
}

/// The path of a key in the share.
pub open spec fn path_of(base: Seq<char>, key: Seq<char>) -> Seq<char> {
    let k = text::trim_end_char(key, '/');
    if base.len() == 0 {
        k
    } else if k.len() == 0 {
        base
    } else {
        base.push('/') + k
    }
}

/// The path of a key in the share, slashes at its end aside.
pub fn full(base: &str, key: &str) -> (r: String)
    ensures
        r@ == path_of(base@, key@),
{
    let k = text::trim_end(key, '/');
    if base.is_empty() {
        k
    } else if k.as_str().is_empty() {
        base.to_string()
    } else {
        let mut out = base.to_string();
        out.push('/');
        out.append(k.as_str());
        out
    }
}

/// Seconds since the epoch for a time of the share: tenths of microseconds since
/// the year 1601, zero where it is unknown.
pub fn epoch(file_time: u64) -> (r: Option<i64>)
    ensures
        match r {
            Some(secs) => file_time != 0 && secs == file_time / 10_000_000 - 11_644_473_600,
            None => file_time == 0,
        },
{
    if file_time == 0 {
        None
    } else {
        Some((file_time / 10_000_000) as i64 - 11_644_473_600)
    }
}

/// How much to read next of a file of `len` bytes; nothing at its end.
pub fn next_read(offset: u64, len: u64) -> (r: Option<u64>)
    ensures
        r == if offset >= len {
            None
        } else if len - offset < STREAM_CHUNK {
            Some((len - offset) as u64)
        } else {
            Some(STREAM_CHUNK)
        },
{
    if offset >= len {
        None
    } else if len - offset < STREAM_CHUNK {
        Some(len - offset)
    } else {
        Some(STREAM_CHUNK)
    }
}

/// Where a read that is to start at an offset starts: not behind the file's end.
pub fn start_at(offset: u64, len: u64) -> (r: u64)
    ensures
        r == if offset < len {
            offset
        } else {
            len
        },
{
    if offset < len {
        offset
    } else {
        len
    }
}

/// A key lies below the base at its own path; a slash at its end does not matter, the
/// empty key is the base, and without a base keys start at the share.
pub proof fn law_path_lies_below_base(base: Seq<char>, key: Seq<char>)
    ensures
        path_of(base, key.push('/')) == path_of(base, key),
        path_of(base, Seq::empty()) == base,
        key.len() > 0 && key.last() != '/' ==> path_of(Seq::empty(), key) == key,
        key.len() > 0 && key.last() != '/' && base.len() > 0 ==> path_of(base, key) == base
            + seq!['/'] + key,
{
    assert(key.push('/').drop_last() =~= key);
    assert(text::trim_end_char(Seq::empty(), '/').len() == 0);
    assert(base.push('/') =~= base + seq!['/']);
    assert(base.len() == 0 ==> base =~= Seq::empty());
    assert(text::trim_end_char(Seq::<char>::empty(), '/') =~= Seq::empty());
}

} // verus!
