//! Resource limiters: bounded-reader wrappers that cap how many bytes a
//! nested decode step may consume, so one packet's decode cannot read into
//! the next packet's bytes.

use vstd::prelude::*;

use crate::error::ErrorType;
use crate::error::TransportError;
use crate::error::TransportResult;
use crate::reader::ByteReader;

verus! {

/// A hard byte ceiling: any read that would exceed the ceiling is rejected
/// before a single byte of it is consumed.
pub struct ReadLimiter {
    limit: usize,
    current: usize,
}

impl ReadLimiter {
    /// The ceiling this limiter was made with.
    pub closed spec fn limit(self) -> usize {
        self.limit
    }

    /// The bytes consumed through this limiter so far.
    pub closed spec fn consumed(self) -> usize {
        self.current
    }

    /// Creates a limiter that allows `limit` bytes in all.
    pub fn new(limit: usize) -> (r: Self)
        ensures
            r.limit() == limit,
            r.consumed() == 0,
    {
        ReadLimiter { limit, current: 0 }
    }

    /// Reads exactly `n` bytes, rejecting the request before reading when it
    /// would exceed the ceiling.
    pub fn read_exact(&mut self, reader: &mut ByteReader, n: usize) -> (res: TransportResult<
        Vec<u8>,
    >)
        requires
            old(reader).wf(),
        ensures
            final(reader).wf(),
            final(self).limit() == old(self).limit(),
            old(self).consumed() + n > old(self).limit() ==> (res matches Err(e) && e.error_type
                == ErrorType::BoundExceeded && final(self).consumed() == old(self).consumed()
                && final(reader)@ == old(reader)@),
            old(self).consumed() + n <= old(self).limit() && n > old(reader)@.len() ==> (res
                matches Err(e) && e.error_type == ErrorType::EOF && final(self).consumed() == old(self).consumed() && final(reader)@ == old(reader)@),
            old(self).consumed() + n <= old(self).limit() && n <= old(reader)@.len() ==> (res
                matches Ok(v) && v@ == old(reader)@.take(n as int) && final(self).consumed() == old(self).consumed() + n && final(reader)@ == old(reader)@.skip(n as int)),
    {
        if self.current > self.limit || n > self.limit - self.current {
            return Err(
                TransportError::measured(n as u64, self.limit as u64, ErrorType::BoundExceeded),
            );
        }
        let bytes = reader.read_exact(n)?;
        self.current = self.current + n;
        Ok(bytes)
    }

    /// Fails unless exactly the ceiling's worth of bytes has been consumed:
    /// detects under-consumption of a fixed-size region.
    pub fn assert_length(&self) -> (res: TransportResult<()>)
        ensures
            res is Ok <==> self.consumed() == self.limit(),
    {
        if self.current == self.limit {
            Ok(())
        } else {
            Err(TransportError::error(ErrorType::Generic))
        }
    }
}

/// A soft byte ceiling: reads are silently truncated at the ceiling, and
/// report zero further bytes once it is exhausted.
pub struct SoftReadLimiter {
    limit: usize,
    current: usize,
}

impl SoftReadLimiter {
    /// The ceiling this limiter was made with.
    pub closed spec fn limit(self) -> usize {
        self.limit
    }

    /// The bytes consumed through this limiter so far.
    pub closed spec fn consumed(self) -> usize {
        self.current
    }

    /// The bytes still allowed through.
    pub open spec fn budget(self) -> int {
        self.limit() - self.consumed()
    }

    /// Creates a limiter that passes through at most `limit` bytes in all.
    pub fn new(limit: usize) -> (r: Self)
        ensures
            r.limit() == limit,
            r.consumed() == 0,
    {
        SoftReadLimiter { limit, current: 0 }
    }

    /// Reads up to `n` bytes: the request is truncated to the remaining
    /// budget and to the bytes the source still holds, and never fails.
    pub fn read(&mut self, reader: &mut ByteReader, n: usize) -> (res: Vec<u8>)
        requires
            old(reader).wf(),
            old(self).consumed() <= old(self).limit(),
        ensures
            final(reader).wf(),
            final(self).limit() == old(self).limit(),
            res@.len() == vstd::math::min(
                vstd::math::min(n as int, old(self).budget()),
                old(reader)@.len() as int,
            ),
            res@ == old(reader)@.take(res@.len() as int),
            final(reader)@ == old(reader)@.skip(res@.len() as int),
            final(self).consumed() == old(self).consumed() + res@.len(),
    {
        let mut take: usize = n;
        if take > self.limit - self.current {
            take = self.limit - self.current;
        }
        let rem = reader.remaining_len();
        if take > rem {
            take = rem;
        }
        let bytes = match reader.read_exact(take) {
            Ok(v) => v,
            Err(_) => {
                proof {
                    assert(false);
                }
                Vec::new()
            },
        };
        self.current = self.current + take;
        bytes
    }
}

} // verus!
