//! The frame codec: one length-delimited unit of the wire protocol, with
//! optional DEFLATE compression. A frame body begins with the declared
//! decompressed length when compression is active; zero declares that the
//! payload travels uncompressed.

use vstd::prelude::*;

use crate::error::ErrorType;
use crate::error::TransportError;
use crate::error::TransportResult;
use crate::pipeline::ChainProcessor;
use crate::reader::ByteReader;
use crate::varnum;
use crate::varnum::VarParsed;

verus! {

/// What flate2's zlib compression at the default level produces for a byte
/// sequence: the result depends on the bytes alone.
pub uninterp spec fn deflate_of(b: Seq<u8>) -> Seq<u8>;

/// What flate2's zlib decompression produces for a byte sequence: the
/// decompressed bytes, or nothing when the stream is rejected.
pub uninterp spec fn inflate_of(b: Seq<u8>) -> Option<Seq<u8>>;

/// Relies on flate2's `ZlibEncoder` over the default compression level: the
/// output depends on the input bytes alone, and decompressing it yields the
/// input back.
#[verifier::external_body]
fn zlib_compress(data: &Vec<u8>) -> (r: Vec<u8>)
    ensures
        r@ == deflate_of(data@),
        inflate_of(r@) == Some(data@),
{
    let mut encoder = flate2::bufread::ZlibEncoder::new(
        data.as_slice(),
        flate2::Compression::default(),
    );
    let mut out = Vec::new();
    match std::io::Read::read_to_end(&mut encoder, &mut out) {
        Ok(_) => out,
        Err(_) => Vec::new(),
    }
}

/// Relies on flate2's `ZlibDecoder`: the result depends on the input bytes
/// alone, and a rejected stream is reported rather than decoded.
#[verifier::external_body]
fn zlib_decompress(data: &Vec<u8>) -> (r: Option<Vec<u8>>)
    ensures
        r matches Some(v) ==> inflate_of(data@) == Some(v@),
        r is None ==> inflate_of(data@) is None,
{
    let mut decoder = flate2::bufread::ZlibDecoder::new(data.as_slice());
    let mut out = Vec::new();
    match std::io::Read::read_to_end(&mut decoder, &mut out) {
        Ok(_) => Some(out),
        Err(_) => None,
    }
}

/// The payload bytes of one undecoded packet.
#[derive(Debug)]
pub struct PacketFrame {
    /// The payload bytes.
    pub data: Vec<u8>,
}

/// The exact bytes that encoding a frame produces: unchanged below a
/// disabled threshold; a zero marker and the raw payload below an enabled
/// threshold; the declared decompressed length and the compressed payload at
/// or above it.
pub open spec fn frame_encode_spec(threshold: int, data: Seq<u8>) -> Seq<u8> {
    if threshold < 0 {
        data
    } else if data.len() < threshold {
        varnum::var_int_bytes(0) + data
    } else {
        varnum::var_int_bytes(data.len() as i32) + deflate_of(data)
    }
}

/// The exact result of decoding a frame body: unchanged below a disabled
/// threshold; otherwise the declared length is read, zero means the rest is
/// the raw payload, and any other value requires the rest to decompress to
/// exactly that many bytes.
pub open spec fn frame_decode_spec(threshold: int, b: Seq<u8>) -> Option<Seq<u8>> {
    if threshold < 0 {
        Some(b)
    } else {
        match varnum::var_decode(b, 5) {
            VarParsed::Value { v, len } => {
                let declared = varnum::var_int_value(v);
                if declared == 0 {
                    Some(b.skip(len))
                } else if declared < 0 {
                    None
                } else {
                    match inflate_of(b.skip(len)) {
                        Some(payload) => if payload.len() == declared {
                            Some(payload)
                        } else {
                            None
                        },
                        None => None,
                    }
                }
            },
            VarParsed::Eof => None,
            VarParsed::TooBig => None,
        }
    }
}

/// The encoding side of the frame pipeline.
pub struct FrameEncoder {
    compression_threshold: i32,
}

impl FrameEncoder {
    /// The threshold this encoder was made with; negative disables
    /// compression.
    pub closed spec fn threshold(self) -> int {
        self.compression_threshold as int
    }

    /// Creates an encoder with the given compression threshold. A negative
    /// threshold disables compression.
    pub fn new(compression_threshold: i32) -> (r: Self)
        ensures
            r.threshold() == compression_threshold,
    {
        FrameEncoder { compression_threshold }
    }

    /// Hands a frame's payload through unchanged.
    pub fn create_uncompressed_packet(frame: PacketFrame) -> (r: Vec<u8>)
        ensures
            r@ == frame.data@,
    {
        frame.data
    }

    /// Encodes one frame. Fails exactly when an enabled threshold meets a
    /// payload whose length does not fit the declared-length field. When the
    /// payload was compressed, the compression is certified invertible.
    pub fn encode_frame(&self, input: PacketFrame) -> (r: TransportResult<Vec<u8>>)
        ensures
            r is Ok <==> (self.threshold() < 0 || input.data@.len() <= 0x7fff_ffff),
            r matches Ok(v) ==> v@ == frame_encode_spec(self.threshold(), input.data@),
            r is Ok && self.threshold() >= 0 && input.data@.len() >= self.threshold()
                ==> inflate_of(deflate_of(input.data@)) == Some(input.data@),
    {
        if self.compression_threshold >= 0 {
            let data = input.data;
            if data.len() > 0x7fff_ffff {
                return Err(TransportError::error(ErrorType::NumericOverflow));
            }
            if data.len() < self.compression_threshold as usize {
                let mut out: Vec<u8> = Vec::new();
                varnum::write_var_int(&mut out, 0);
                crate::packet::string::append_bytes(&mut out, &data);
                proof {
                    assert(out@ =~= frame_encode_spec(self.threshold(), data@));
                }
                Ok(out)
            } else {
                let compressed = zlib_compress(&data);
                let mut out: Vec<u8> = Vec::new();
                varnum::write_var_int(&mut out, data.len() as i32);
                crate::packet::string::append_bytes(&mut out, &compressed);
                proof {
                    assert(out@ =~= frame_encode_spec(self.threshold(), data@));
                }
                Ok(out)
            }
        } else {
            Ok(FrameEncoder::create_uncompressed_packet(input))
        }
    }
}

/// The decoding side of the frame pipeline.
pub struct FrameDecoder {
    compression_threshold: i32,
}

impl FrameDecoder {
    /// The threshold this decoder was made with; negative disables
    /// compression.
    pub closed spec fn threshold(self) -> int {
        self.compression_threshold as int
    }

    /// Creates a decoder with the given compression threshold. A negative
    /// threshold disables compression.
    pub fn new(compression_threshold: i32) -> (r: Self)
        ensures
            r.threshold() == compression_threshold,
    {
        FrameDecoder { compression_threshold }
    }

    /// Wraps raw bytes in a frame unchanged.
    pub fn create_raw_packet(data: Vec<u8>) -> (r: PacketFrame)
        ensures
            r.data@ == data@,
    {
        PacketFrame { data }
    }

    /// Decodes one frame body. A corrupted declared length fails with the
    /// decompressed-size-mismatch error.
    pub fn decode_frame(&self, input: Vec<u8>) -> (r: TransportResult<PacketFrame>)
        ensures
            r matches Ok(f) ==> frame_decode_spec(self.threshold(), input@) == Some(f.data@),
            r is Err ==> frame_decode_spec(self.threshold(), input@) is None,
            ({
                let b = input@;
                self.threshold() >= 0 ==> (match varnum::var_decode(b, 5) {
                    VarParsed::Value { v, len } => {
                        let declared = varnum::var_int_value(v);
                        declared > 0 ==> (match inflate_of(b.skip(len)) {
                            Some(payload) => payload.len() != declared ==> (r matches Err(e)
                                && e.error_type == ErrorType::DecompressMismatch),
                            None => r is Err,
                        })
                    },
                    VarParsed::Eof => r is Err,
                    VarParsed::TooBig => r is Err,
                })
            }),
    {
        if self.compression_threshold >= 0 {
            let mut reader = ByteReader::new(input);
            let declared = varnum::read_var_int(&mut reader)?;
            let rest = reader.read_to_end();
            if declared == 0 {
                Ok(PacketFrame { data: rest })
            } else if declared < 0 {
                Err(TransportError::error(ErrorType::NumericOverflow))
            } else {
                match zlib_decompress(&rest) {
                    Some(payload) => {
                        if payload.len() == declared as usize {
                            Ok(PacketFrame { data: payload })
                        } else {
                            Err(
                                TransportError::measured(
                                    payload.len() as u64,
                                    declared as u64,
                                    ErrorType::DecompressMismatch,
                                ),
                            )
                        }
                    },
                    None => Err(TransportError::error(ErrorType::Generic)),
                }
            }
        } else {
            Ok(FrameDecoder::create_raw_packet(input))
        }
    }
}

impl ChainProcessor for FrameEncoder {
    type Input = PacketFrame;

    type Output = Vec<u8>;

    open spec fn accepts(&self, input: PacketFrame) -> bool {
        self.threshold() < 0 || input.data@.len() <= 0x7fff_ffff
    }

    open spec fn post(&self, input: PacketFrame, output: Vec<u8>) -> bool {
        output@ == frame_encode_spec(self.threshold(), input.data@)
    }

    fn process(&self, input: PacketFrame) -> (r: TransportResult<Vec<u8>>) {
        self.encode_frame(input)
    }
}

impl ChainProcessor for FrameDecoder {
    type Input = Vec<u8>;

    type Output = PacketFrame;

    open spec fn accepts(&self, input: Vec<u8>) -> bool {
        frame_decode_spec(self.threshold(), input@) is Some
    }

    open spec fn post(&self, input: Vec<u8>, output: PacketFrame) -> bool {
        frame_decode_spec(self.threshold(), input@) == Some(output.data@)
    }

    fn process(&self, input: Vec<u8>) -> (r: TransportResult<PacketFrame>) {
        self.decode_frame(input)
    }
}

/// The outer framing stage: it prepends the byte count of its input, which
/// is the length prefix the buffered transport reader looks for.
pub struct FrameSizeAppender;

impl ChainProcessor for FrameSizeAppender {
    type Input = Vec<u8>;

    type Output = Vec<u8>;

    open spec fn accepts(&self, input: Vec<u8>) -> bool {
        input@.len() <= 0x7fff_ffff
    }

    open spec fn post(&self, input: Vec<u8>, output: Vec<u8>) -> bool {
        output@ == varnum::var_int_bytes(input@.len() as i32) + input@
    }

    fn process(&self, input: Vec<u8>) -> (r: TransportResult<Vec<u8>>) {
        if input.len() > 0x7fff_ffff {
            return Err(TransportError::error(ErrorType::NumericOverflow));
        }
        let mut out: Vec<u8> = Vec::new();
        varnum::write_var_int(&mut out, input.len() as i32);
        crate::packet::string::append_bytes(&mut out, &input);
        proof {
            assert(out@ =~= varnum::var_int_bytes(input@.len() as i32) + input@);
        }
        Ok(out)
    }
}

/// A payload below an enabled threshold round-trips byte-identically behind
/// a zero marker; one at or above it round-trips through compression,
/// provided the compression was certified invertible; and the decoder
/// rejects any frame whose declared length does not match what its body
/// decompresses to. An empty payload under a zero threshold is the one
/// excluded input: its compressed form travels behind a zero marker, which
/// the decoder reads as the uncompressed case.
pub proof fn lemma_frame_roundtrip(threshold: int, payload: Seq<u8>)
    requires
        0 <= threshold,
        payload.len() <= 0x7fff_ffff,
        !(threshold == 0 && payload.len() == 0),
        payload.len() >= threshold ==> inflate_of(deflate_of(payload)) == Some(payload),
    ensures
        frame_decode_spec(threshold, frame_encode_spec(threshold, payload)) == Some(payload),
{
    if payload.len() < threshold {
        varnum::lemma_var_int_roundtrip(0, payload);
        let b = frame_encode_spec(threshold, payload);
        assert(varnum::var_int_bytes(0) + payload =~= b);
        if let VarParsed::Value { v, len } = varnum::var_decode(b, 5) {
            assert(varnum::var_int_value(v) == 0);
            assert(b.skip(len) =~= payload);
        }
    } else {
        varnum::lemma_var_int_roundtrip(payload.len() as i32, deflate_of(payload));
        let b = frame_encode_spec(threshold, payload);
        assert(varnum::var_int_bytes(payload.len() as i32) + deflate_of(payload) =~= b);
        if let VarParsed::Value { v, len } = varnum::var_decode(b, 5) {
            assert(varnum::var_int_value(v) == payload.len() as i32);
            assert(b.skip(len) =~= deflate_of(payload));
        }
    }
}

} // verus!
