//! A byte source over a fully-buffered frame. Decoding always works on one
//! assembled frame at a time, so the source is a byte vector with a cursor.

use vstd::prelude::*;

use crate::error::ErrorType;
use crate::error::TransportError;
use crate::error::TransportResult;

verus! {

/// A cursor over a byte buffer. Its view is the sequence of bytes that have
/// not been consumed yet.
pub struct ByteReader {
    data: Vec<u8>,
    pos: usize,
}

impl View for ByteReader {
    type V = Seq<u8>;

    closed spec fn view(&self) -> Seq<u8> {
        self.data@.skip(self.pos as int)
    }
}

impl ByteReader {
    /// The cursor never points past the end of the buffer.
    pub closed spec fn wf(self) -> bool {
        self.pos <= self.data@.len()
    }

    /// Wraps a buffer in a reader positioned at its start.
    pub fn new(data: Vec<u8>) -> (r: Self)
        ensures
            r.wf(),
            r@ == data@,
    {
        let r = ByteReader { data, pos: 0 };
        proof {
            assert(r@ =~= r.data@);
        }
        r
    }

    /// How many bytes are left to read.
    pub fn remaining_len(&self) -> (n: usize)
        requires
            self.wf(),
        ensures
            n == self@.len(),
    {
        self.data.len() - self.pos
    }

    /// Reads one byte, or fails with an end-of-stream error if none is left.
    pub fn read_u8(&mut self) -> (r: TransportResult<u8>)
        requires
            old(self).wf(),
        ensures
            final(self).wf(),
            old(self)@.len() > 0 ==> r == Ok::<u8, TransportError>(old(self)@[0]) && final(self)@
                == old(self)@.skip(1),
            old(self)@.len() == 0 ==> (r matches Err(e) && e.error_type == ErrorType::EOF && final(self)@ == old(self)@),
    {
        if self.pos < self.data.len() {
            let b = self.data[self.pos];
            self.pos = self.pos + 1;
            proof {
                assert(self@ =~= old(self)@.skip(1));
            }
            Ok(b)
        } else {
            Err(TransportError::error(ErrorType::EOF))
        }
    }

    /// Reads exactly `n` bytes, or fails with an end-of-stream error without
    /// consuming anything if fewer are left.
    pub fn read_exact(&mut self, n: usize) -> (r: TransportResult<Vec<u8>>)
        requires
            old(self).wf(),
        ensures
            final(self).wf(),
            n <= old(self)@.len() ==> (r matches Ok(v) && v@ == old(self)@.take(n as int) && final(self)@ == old(self)@.skip(n as int)),
            n > old(self)@.len() ==> (r matches Err(e) && e.error_type == ErrorType::EOF && final(self)@ == old(self)@),
    {
        if n > self.data.len() - self.pos {
            return Err(TransportError::error(ErrorType::EOF));
        }
        let mut out: Vec<u8> = Vec::new();
        let mut i: usize = 0;
        let dlen = self.data.len();
        while i < n
            invariant
                self == old(self),
                self.wf(),
                i <= n,
                n <= self@.len(),
                dlen == self.data@.len(),
                self.pos + n <= dlen,
                out@ =~= self@.take(i as int),
            decreases n - i,
        {
            out.push(self.data[self.pos + i]);
            proof {
                assert(self@.take(i as int + 1) =~= self@.take(i as int).push(self@[i as int]));
            }
            i = i + 1;
        }
        self.pos = self.pos + n;
        proof {
            assert(self@ =~= old(self)@.skip(n as int));
            assert(out@ =~= old(self)@.take(n as int));
        }
        Ok(out)
    }

    /// Reads all remaining bytes.
    pub fn read_to_end(&mut self) -> (r: Vec<u8>)
        requires
            old(self).wf(),
        ensures
            final(self).wf(),
            r@ == old(self)@,
            final(self)@ == Seq::<u8>::empty(),
    {
        let n = self.data.len() - self.pos;
        match self.read_exact(n) {
            Ok(v) => {
                proof {
                    assert(v@ =~= old(self)@);
                    assert(self@ =~= Seq::<u8>::empty());
                }
                v
            },
            Err(_) => {
                proof {
                    assert(false);
                }
                Vec::new()
            },
        }
    }
}

} // verus!
