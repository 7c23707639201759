//! The buffered transport reader: an incremental state machine that
//! accumulates bytes from a non-blocking source, parses a length prefix from
//! the buffered bytes, and yields one fully-assembled frame at a time to the
//! pipeline for decoding.

use vstd::prelude::*;

use crate::error::ErrorType;
use crate::error::TransportError;
use crate::error::TransportResult;
use crate::pipeline::ChainProcessor;
use crate::reader::ByteReader;
use crate::varnum;
use crate::varnum::VarParsed;

verus! {

/// Splits one length-prefixed frame off the front of the buffered bytes:
/// the frame body and the bytes after it, or nothing while the prefix or
/// the body is still incomplete.
pub open spec fn frame_split(b: Seq<u8>) -> Option<(Seq<u8>, Seq<u8>)> {
    match varnum::var_decode(b, 5) {
        VarParsed::Value { v, len } => {
            let n = varnum::var_int_value(v);
            if n < 0 {
                Option::None
            } else if b.skip(len).len() < n {
                Option::None
            } else {
                Option::Some((b.skip(len).take(n as int), b.skip(len).skip(n as int)))
            }
        },
        VarParsed::Eof => Option::None,
        VarParsed::TooBig => Option::None,
    }
}

/// Whether the pipeline can produce `o` from some byte vector spelling
/// `frame`.
#[verifier::opaque]
pub open spec fn decoded_from<P: ChainProcessor<Input = Vec<u8>>>(
    chain: P,
    frame: Seq<u8>,
    o: P::Output,
) -> bool {
    exists|fv: Vec<u8>| fv@ == frame && #[trigger] chain.post(fv, o)
}

/// Whether the pipeline rejects some byte vector spelling `frame`.
#[verifier::opaque]
pub open spec fn rejected_from<P: ChainProcessor<Input = Vec<u8>>>(chain: P, frame: Seq<u8>) -> bool {
    exists|fv: Vec<u8>| fv@ == frame && !(#[trigger] chain.accepts(fv))
}

/// Witnesses that a decode happened from a vector spelling the frame.
pub proof fn lemma_decoded_intro<P: ChainProcessor<Input = Vec<u8>>>(
    chain: P,
    fv: Vec<u8>,
    o: P::Output,
)
    requires
        chain.post(fv, o),
    ensures
        decoded_from(chain, fv@, o),
{
    reveal(decoded_from);
}

/// Witnesses that a rejection happened on a vector spelling the frame.
pub proof fn lemma_rejected_intro<P: ChainProcessor<Input = Vec<u8>>>(chain: P, fv: Vec<u8>)
    requires
        !chain.accepts(fv),
    ensures
        rejected_from(chain, fv@),
{
    reveal(rejected_from);
}

/// The reader state machine: a bounded accumulation buffer and the pipeline
/// that decodes each assembled frame.
pub struct DraxTransportPipeline<P> {
    pipeline: P,
    buffer: Vec<u8>,
    capacity: usize,
}

impl<P: ChainProcessor<Input = Vec<u8>>> DraxTransportPipeline<P> {
    /// The bytes accumulated and not yet consumed by a frame.
    pub closed spec fn buffered(self) -> Seq<u8> {
        self.buffer@
    }

    /// The most bytes the buffer may hold.
    pub closed spec fn cap(self) -> usize {
        self.capacity
    }

    /// The pipeline each assembled frame is decoded by.
    pub closed spec fn chain(self) -> P {
        self.pipeline
    }

    /// Creates a reader with an empty buffer of the given capacity.
    pub fn new(pipeline: P, capacity: usize) -> (r: Self)
        ensures
            r.buffered() == Seq::<u8>::empty(),
            r.cap() == capacity,
            r.chain() == pipeline,
    {
        let r = DraxTransportPipeline { pipeline, buffer: Vec::new(), capacity };
        proof {
            assert(r.buffered() =~= Seq::<u8>::empty());
        }
        r
    }

    /// Replaces the decode pipeline, keeping the buffered bytes.
    pub fn update_chain(&mut self, chain: P)
        ensures
            final(self).buffered() == old(self).buffered(),
            final(self).cap() == old(self).cap(),
            final(self).chain() == chain,
    {
        self.pipeline = chain;
    }

    /// Feeds newly-arrived bytes and attempts to slice one frame off the
    /// buffer. The buffer grows by exactly the fed bytes; once it holds a
    /// complete length-prefixed frame, the frame's bytes are consumed and
    /// handed back; filling the buffer beyond its capacity fails.
    #[verifier::rlimit(100)]
    pub fn poll_frame(&mut self, chunk: &Vec<u8>) -> (res: TransportResult<Option<Vec<u8>>>)
        ensures
            final(self).cap() == old(self).cap(),
            final(self).chain() == old(self).chain(),
            old(self).buffered().len() + chunk@.len() > old(self).cap() ==> (res matches Err(e)
                && e.error_type == ErrorType::BufferFull && final(self).buffered() == old(
                self,
            ).buffered()),
            old(self).buffered().len() + chunk@.len() <= old(self).cap() ==> (match frame_split(
                old(self).buffered() + chunk@,
            ) {
                Option::None => res matches Ok(op) && op is None && final(self).buffered() == old(
                    self,
                ).buffered() + chunk@,
                Option::Some((frame, rest)) => res matches Ok(op) && op matches Some(fv) && fv@
                    == frame && final(self).buffered() == rest,
            }),
    {
        if chunk.len() > self.capacity || self.buffer.len() > self.capacity - chunk.len() {
            return Err(
                TransportError::measured(
                    self.buffer.len() as u64,
                    self.capacity as u64,
                    ErrorType::BufferFull,
                ),
            );
        }
        crate::packet::string::append_bytes(&mut self.buffer, chunk);
        let ghost whole = self.buffer@;
        let mut copy: Vec<u8> = Vec::new();
        crate::packet::string::append_bytes(&mut copy, &self.buffer);
        proof {
            assert(copy@ =~= whole);
        }
        let mut probe = ByteReader::new(copy);
        let declared = match varnum::read_var_int(&mut probe) {
            Ok(d) => d,
            Err(_) => {
                return Ok(None);
            },
        };
        if declared < 0 {
            return Ok(None);
        }
        let remaining = probe.remaining_len();
        if remaining < declared as usize {
            return Ok(None);
        }
        let mut rest_reader = probe;
        let frame = match rest_reader.read_exact(declared as usize) {
            Ok(f) => f,
            Err(e) => {
                proof {
                    assert(false);
                }
                return Err(e);
            },
        };
        let rest = rest_reader.read_to_end();
        self.buffer = rest;
        proof {
            varnum::lemma_var_decode_len_bound(whole, 5);
            if let VarParsed::Value { v, len } = varnum::var_decode(whole, 5) {
                assert(frame@ =~= whole.skip(len).take(declared as int));
                assert(self.buffer@ =~= whole.skip(len).skip(declared as int));
            }
        }
        Ok(Some(frame))
    }

    /// Feeds newly-arrived bytes and attempts to assemble and decode one
    /// frame: an assembled frame is fed through the pipeline and the decoded
    /// value yielded.
    pub fn read_transport_packet(&mut self, chunk: &Vec<u8>) -> (res: TransportResult<
        Option<P::Output>,
    >)
        ensures
            final(self).cap() == old(self).cap(),
            final(self).chain() == old(self).chain(),
            old(self).buffered().len() + chunk@.len() > old(self).cap() ==> (res matches Err(e)
                && e.error_type == ErrorType::BufferFull && final(self).buffered() == old(
                self,
            ).buffered()),
            old(self).buffered().len() + chunk@.len() <= old(self).cap() ==> (match frame_split(
                old(self).buffered() + chunk@,
            ) {
                Option::None => res matches Ok(op) && op is None && final(self).buffered() == old(
                    self,
                ).buffered() + chunk@,
                Option::Some((frame, rest)) => {
                    &&& final(self).buffered() == rest
                    &&& (res matches Ok(op) ==> (op matches Some(o) ==> decoded_from(
                        old(self).chain(),
                        frame,
                        o,
                    )))
                    &&& (res is Err ==> rejected_from(old(self).chain(), frame))
                },
            }),
    {
        let polled = match self.poll_frame(chunk) {
            Ok(op) => op,
            Err(e) => {
                return Err(e);
            },
        };
        let frame = match polled {
            Some(f) => f,
            None => {
                return Ok(None);
            },
        };
        let ghost fsnap = frame;
        match self.pipeline.process(frame) {
            Ok(o) => {
                proof {
                    lemma_decoded_intro(old(self).chain(), fsnap, o);
                }
                Ok(Some(o))
            },
            Err(e) => {
                proof {
                    lemma_rejected_intro(old(self).chain(), fsnap);
                }
                Err(e)
            },
        }
    }
}

/// Frame assembly depends only on the bytes fed, not on how they were cut
/// into chunks: feeding two chunks grows the buffer exactly as feeding
/// their concatenation does, so the frames split off afterwards are the
/// same.
pub proof fn lemma_chunking_immaterial(base: Seq<u8>, c1: Seq<u8>, c2: Seq<u8>)
    ensures
        (base + c1) + c2 == base + (c1 + c2),
        frame_split((base + c1) + c2) == frame_split(base + (c1 + c2)),
{
    assert((base + c1) + c2 =~= base + (c1 + c2));
}

} // verus!
