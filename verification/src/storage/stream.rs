//! Chunks that arrive as they come, read in whatever amounts are asked for.

use vstd::prelude::*;

verus! {

/// The chunk that is being read. The owner brings the next one when it is used
/// up, or reports the error that came instead.
#[derive(Debug)]
pub struct ChannelReader {
    buf: Vec<u8>,
    pos: usize,
}

impl ChannelReader {
    /// What was brought and not read yet.
    pub closed spec fn rest(&self) -> Seq<u8> {
        self.buf@.skip(self.pos as int)
    }

    #[verifier::type_invariant]
    closed spec fn well_formed(self) -> bool {
        self.pos <= self.buf@.len()
    }

    /// Before the first chunk.
    pub fn new() -> (r: Self)
        ensures
            r.rest() == Seq::<u8>::empty(),
    {
        let r = ChannelReader { buf: Vec::new(), pos: 0 };
        assert(r.rest() =~= Seq::empty());
        r
    }

    /// Reads what is there, as much as there is room for. Nothing comes back
    /// where the chunk is used up and the next one is to be brought.
    pub fn read(&mut self, room: usize) -> (r: Option<Vec<u8>>)
        ensures
            match r {
                Some(bytes) => {
                    let n = if old(self).rest().len() < room {
                        old(self).rest().len() as int
                    } else {
                        room as int
                    };
                    &&& old(self).rest().len() > 0
                    &&& bytes@ == old(self).rest().take(n)
                    &&& final(self).rest() == old(self).rest().skip(n)
                },
                None => old(self).rest().len() == 0 && final(self).rest() == old(self).rest(),
            },
    {
        proof {
            use_type_invariant(&*self);
        }
        if self.pos >= self.buf.len() {
            return None;
        }
        let left: usize = self.buf.len() - self.pos;
        let n: usize = if left < room {
            left
        } else {
            room
        };
        let mut out: Vec<u8> = Vec::new();
        let mut i: usize = 0;
        while i < n
            invariant
                i <= n,
                self.pos + n <= self.buf.len(),
                out@ == self.buf@.subrange(self.pos as int, self.pos + i),
            decreases n - i,
        {
            out.push(self.buf[self.pos + i]);
            assert(out@ =~= self.buf@.subrange(self.pos as int, self.pos + i + 1));
            i += 1;
        }
        self.pos = self.pos + n;
        assert(out@ =~= old(self).rest().take(n as int));
        assert(self.rest() =~= old(self).rest().skip(n as int));
        Some(out)
    }

    /// Brings the next chunk.
    pub fn refill(&mut self, chunk: Vec<u8>)
        ensures
            final(self).rest() == chunk@,
    {
        self.pos = 0;
        self.buf = chunk;
        assert(self.rest() =~= chunk@);
    }
}

} // verus!
