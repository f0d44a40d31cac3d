//! NFS exports: how a buffer is written to a server that takes what it likes.

use crate::text;
use vstd::prelude::*;
use vstd::string::*;

verus! {

/// How much is written at a time.
pub const WRITE_CHUNK: usize = 0x4_0000;

/// What the user is told where no export is named.
pub const EXPORT_REQUIRED: &'static str = "an NFS export path is required (e.g. /srv/nfs/share)";

/// What the user is told where a server takes nothing.
pub const ZERO_WRITTEN: &'static str = "NFS server accepted zero bytes";

/// The export to mount, if one is named.
pub fn export_path(root_path: &str) -> (r: Option<String>)
    ensures
        match r {
            Some(e) => e@ == text::trim_space(root_path@) && e@.len() > 0,
            None => text::trim_space(root_path@).len() == 0,
        },
{
    let trimmed = text::trim(root_path);
    if trimmed.as_str().is_empty() {
        None
    } else {
        Some(trimmed)
    }
}

/// Where the listing of a directory goes on after a page of names with these
/// cookies. It ends with the last page, and with one that is empty.
pub fn next_cookie(cookies: &Vec<u64>, eof: bool) -> (r: Option<u64>)
    ensures
        r == if eof || cookies@.len() == 0 {
            None
        } else {
            Some(cookies@.last())
        },
{
    if eof || cookies.len() == 0 {
        None
    } else {
        Some(cookies[cookies.len() - 1])
    }
}

/// A buffer on its way to the server: it is cut into pieces, and each piece is
/// sent until the server has taken all of it.
#[derive(Clone, Copy, Debug, PartialEq, Eq, Structural)]
pub struct WriteCursor {
    /// Where the piece starts in the buffer.
    pub piece: usize,
    /// How much of the piece was taken.
    pub written: usize,
    /// Where the next byte goes in the file.
    pub offset: u64,
    /// The length of the buffer.
    pub len: usize,
}

/// The end of the piece that starts at a place.
pub open spec fn piece_end(piece: int, len: int) -> int {
    if len - piece <= 0x4_0000 {
        len
    } else {
        piece + 0x4_0000
    }
}

/// A range of a buffer.
#[derive(Clone, Copy, Debug, PartialEq, Eq, Structural)]
pub struct Range {
    pub start: usize,
    pub end: usize,
}

impl WriteCursor {
    /// Whether the cursor stands in the buffer.
    pub open spec fn well_formed(self) -> bool {
        self.piece <= self.len
    }

    /// Starts to write a buffer at an offset of the file.
    pub fn new(offset: u64, len: usize) -> (r: Self)
        ensures
            r == (WriteCursor { piece: 0, written: 0, offset, len }),
            r.well_formed(),
    {
        WriteCursor { piece: 0, written: 0, offset, len }
    }

    /// The part of the buffer to send next: what is left of the piece, or the
    /// next piece. Nothing is left when the buffer was taken.
    pub fn next(&mut self) -> (r: Option<Range>)
        requires
            old(self).well_formed(),
        ensures
            final(self).well_formed(),
            final(self).len == old(self).len,
            final(self).offset == old(self).offset,
            place(*final(self)) == place(*old(self)),
            r matches Some(range) ==> range.start == place(*old(self)),
            ({
                let end = piece_end(old(self).piece as int, old(self).len as int);
                if old(self).piece + old(self).written < end {
                    &&& *final(self) == *old(self)
                    &&& r == Some(
                        Range {
                            start: (old(self).piece + old(self).written) as usize,
                            end: end as usize,
                        },
                    )
                } else if end < old(self).len {
                    &&& final(self).piece == end
                    &&& final(self).written == 0
                    &&& r == Some(
                        Range {
                            start: end as usize,
                            end: piece_end(end, old(self).len as int) as usize,
                        },
                    )
                } else {
                    &&& r is None
                    &&& final(self).piece == old(self).len
                    &&& final(self).written == 0
                }
            }),
    {
        let mut end: usize = if self.len - self.piece <= 0x4_0000 {
            self.len
        } else {
            self.piece + 0x4_0000
        };
        if self.written >= end - self.piece {
            self.piece = end;
            self.written = 0;
            if end == self.len {
                return None;
            }
            end = if self.len - self.piece <= 0x4_0000 {
                self.len
            } else {
                self.piece + 0x4_0000
            };
        }
        Some(Range { start: self.piece + self.written, end })
    }

    /// The server has taken so many bytes. A server that takes nothing is given
    /// up.
    pub fn taken(&mut self, count: u32) -> (r: bool)
        requires
            old(self).well_formed(),
            old(self).written + count <= usize::MAX,
            old(self).offset + count <= u64::MAX,
        ensures
            final(self).well_formed(),
            r == (count != 0),
            *final(self) == if r {
                WriteCursor {
                    written: (old(self).written + count) as usize,
                    offset: (old(self).offset + count) as u64,
                    ..*old(self)
                }
            } else {
                *old(self)
            },
    {
        if count == 0 {
            return false;
        }
        self.written = self.written + count as usize;
        self.offset = self.offset + count as u64;
        true
    }
}

/// Where in the buffer the next part starts.
pub open spec fn place(c: WriteCursor) -> int {
    let end = piece_end(c.piece as int, c.len as int);
    if c.piece + c.written < end {
        c.piece + c.written
    } else {
        end
    }
}

/// A server that takes no more than it was sent gets every byte once and in
/// order: what it takes moves the next part on by as much in the buffer as in the
/// file.
pub proof fn law_writes_are_contiguous(c: WriteCursor, count: u32)
    requires
        c.well_formed(),
        0 < count <= piece_end(c.piece as int, c.len as int) - c.piece - c.written,
        c.offset + count <= u64::MAX,
    ensures
        ({
            let after = WriteCursor {
                written: (c.written + count) as usize,
                offset: (c.offset + count) as u64,
                ..c
            };
            &&& place(after) == place(c) + count
            &&& after.offset - c.offset == place(after) - place(c)
        }),
{
}

/// A buffer is sent in pieces of a quarter of a mebibyte, the last of which is what is
/// left over.
pub proof fn law_pieces_cover_the_buffer(piece: int, len: int)
    requires
        0 <= piece < len,
    ensures
        piece < piece_end(piece, len) <= len,
        piece_end(piece, len) - piece <= 0x4_0000,
        piece_end(piece, len) < len ==> piece_end(piece, len) - piece == 0x4_0000,
{
}

} // verus!
