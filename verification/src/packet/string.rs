//! String components: a UTF-8 string behind a variable-length byte-count
//! prefix, with a default decoded-length bound, and a caller-capped variant.

use vstd::prelude::*;
use vstd::utf8::decode_utf8;
use vstd::utf8::encode_utf8;
use vstd::utf8::encode_utf8_decode_utf8;
use vstd::utf8::encode_utf8_valid_utf8;
use vstd::utf8::valid_utf8;

use crate::error::ErrorType;
use crate::error::TransportError;
use crate::error::TransportResult;
use crate::packet::PacketComponent;
use crate::packet::Size;
use crate::reader::ByteReader;
use crate::varnum;
use crate::varnum::VarParsed;

verus! {

/// The default bound on a string's encoded byte length: four bytes for each
/// of 32767 characters.
pub const STRING_DEFAULT_CAP: usize = 131068;

/// Appends all bytes of `b` to `out`.
pub fn append_bytes(out: &mut Vec<u8>, b: &Vec<u8>)
    ensures
        final(out)@ == old(out)@ + b@,
{
    let mut i: usize = 0;
    let n = b.len();
    while i < n
        invariant
            i <= n,
            n == b@.len(),
            out@ =~= old(out)@ + b@.take(i as int),
        decreases n - i,
    {
        out.push(b[i]);
        proof {
            assert(b@.take(i as int + 1) =~= b@.take(i as int).push(b@[i as int]));
        }
        i = i + 1;
    }
    proof {
        assert(b@.take(n as int) =~= b@);
    }
}

/// Relies on `String::from_utf8`: it succeeds exactly on valid UTF-8 and
/// decodes it to the character sequence the bytes spell.
#[verifier::external_body]
pub(crate) fn string_from_utf8(bytes: Vec<u8>) -> (r: Option<String>)
    ensures
        r matches Some(s) ==> valid_utf8(bytes@) && s@ == decode_utf8(bytes@),
        r is None ==> !valid_utf8(bytes@),
{
    String::from_utf8(bytes).ok()
}

/// The wire image of a string under a byte-length cap: the UTF-8 byte count
/// as a variable-length integer, then the UTF-8 bytes.
pub open spec fn string_wire(m: Seq<char>) -> Seq<u8> {
    varnum::var_int_bytes(encode_utf8(m).len() as i32) + encode_utf8(m)
}

/// Whether a string fits under a byte-length cap.
pub open spec fn string_encodable(m: Seq<char>, cap: usize) -> bool {
    encode_utf8(m).len() <= cap
}

/// The exact parse of a length-prefixed string under a byte-length cap.
pub open spec fn string_spec_decode(b: Seq<u8>, cap: usize) -> Option<(int, Seq<char>)> {
    match varnum::var_decode(b, 5) {
        VarParsed::Value { v, len } => {
            let declared = varnum::var_int_value(v);
            if declared < 0 || declared > cap {
                None
            } else if b.skip(len).len() < declared {
                None
            } else {
                let bytes = b.skip(len).take(declared as int);
                if valid_utf8(bytes) {
                    Some((len + declared, decode_utf8(bytes)))
                } else {
                    None
                }
            }
        },
        VarParsed::Eof => None,
        VarParsed::TooBig => None,
    }
}

/// The kind of error a capped string decode reports for a byte sequence it
/// rejects: a malformed or unfinished prefix, a count above the cap, a
/// negative count, a short body, or invalid text.
pub open spec fn string_decode_err(b: Seq<u8>, cap: usize) -> crate::error::ErrorType {
    match varnum::var_decode(b, 5) {
        VarParsed::Value { v, len } => {
            let declared = varnum::var_int_value(v);
            if declared > cap {
                ErrorType::BoundExceeded
            } else if declared < 0 {
                ErrorType::NumericOverflow
            } else if b.skip(len).len() < declared {
                ErrorType::EOF
            } else {
                ErrorType::InvalidText
            }
        },
        VarParsed::Eof => ErrorType::EOF,
        VarParsed::TooBig => ErrorType::VarNumTooLarge,
    }
}

/// Reads one length-prefixed string under the given cap.
pub fn decode_string_capped(r: &mut ByteReader, cap: usize) -> (res: TransportResult<String>)
    requires
        old(r).wf(),
        cap <= 0x7fff_ffff,
    ensures
        final(r).wf(),
        res matches Ok(v) ==> (string_spec_decode(old(r)@, cap) matches Some((n, m)) && m == v@
            && final(r)@ == old(r)@.skip(n)),
        res is Err ==> string_spec_decode(old(r)@, cap) is None,
        res matches Err(e) ==> e.error_type == string_decode_err(old(r)@, cap),
{
    let declared = varnum::read_var_int(r)?;
    if declared < 0 {
        return Err(TransportError::error(ErrorType::NumericOverflow));
    }
    if declared > cap as i32 {
        return Err(TransportError::measured(declared as u64, cap as u64, ErrorType::BoundExceeded));
    }
    let bytes = r.read_exact(declared as usize)?;
    match string_from_utf8(bytes) {
        Some(s) => {
            proof {
                if let VarParsed::Value { v, len } = varnum::var_decode(old(r)@, 5) {
                    varnum::lemma_var_decode_len_bound(old(r)@, 5);
                    assert(old(r)@.skip(len).skip(declared as int) =~= old(r)@.skip(
                        len + declared as int,
                    ));
                }
            }
            Ok(s)
        },
        None => Err(TransportError::error(ErrorType::InvalidText)),
    }
}

/// Appends one length-prefixed string under the given cap.
pub fn encode_string_capped(v: &String, out: &mut Vec<u8>, cap: usize) -> (res: TransportResult<
    (),
>)
    requires
        cap <= 0x7fff_ffff,
    ensures
        res is Ok <==> string_encodable(v@, cap),
        res is Ok ==> final(out)@ == old(out)@ + string_wire(v@),
{
    let bytes = v.as_str().as_bytes_vec();
    if bytes.len() > cap {
        return Err(TransportError::error(ErrorType::BoundExceeded));
    }
    varnum::write_var_int(out, bytes.len() as i32);
    append_bytes(out, &bytes);
    proof {
        assert(out@ =~= old(out)@ + string_wire(v@));
    }
    Ok(())
}

/// The byte count of one length-prefixed string, when it fits the cap.
pub fn size_string_capped(v: &String, cap: usize) -> (res: TransportResult<usize>)
    requires
        cap <= 0x7fff_ffff,
    ensures
        res is Ok <==> string_encodable(v@, cap),
        res matches Ok(n) ==> n == string_wire(v@).len(),
{
    let byte_len = v.as_str().as_bytes_vec().len();
    if byte_len > cap {
        return Err(TransportError::error(ErrorType::BoundExceeded));
    }
    let prefix = varnum::size_var_int(byte_len as i32);
    Ok(prefix + byte_len)
}

/// A string parse consumes no more bytes than it was given.
pub proof fn lemma_string_decode_bound(b: Seq<u8>, cap: usize)
    ensures
        string_spec_decode(b, cap) matches Some((n, m)) ==> 0 <= n <= b.len(),
{
    varnum::lemma_var_decode_len_bound(b, 5);
}

/// Decoding an encoded string under a cap, whatever bytes follow it, yields
/// the string back.
pub proof fn lemma_string_roundtrip(m: Seq<char>, rest: Seq<u8>, cap: usize)
    requires
        string_encodable(m, cap),
        cap <= 0x7fff_ffff,
    ensures
        string_spec_decode(string_wire(m) + rest, cap) == Some((string_wire(m).len() as int, m)),
{
    broadcast use encode_utf8_valid_utf8, encode_utf8_decode_utf8;

    let bytes = encode_utf8(m);
    let declared_i32 = bytes.len() as i32;
    varnum::lemma_var_int_roundtrip(declared_i32, bytes + rest);
    let b = string_wire(m) + rest;
    assert(varnum::var_int_bytes(declared_i32) + (bytes + rest) =~= b);
    if let VarParsed::Value { v, len } = varnum::var_decode(b, 5) {
        assert(varnum::var_int_value(v) == declared_i32);
        assert(b.skip(len) =~= bytes + rest);
        assert((bytes + rest).take(declared_i32 as int) =~= bytes);
    }
}

impl PacketComponent for String {
    type Value = String;

    open spec fn wire(m: Seq<char>) -> Seq<u8> {
        string_wire(m)
    }

    open spec fn encodable(m: Seq<char>) -> bool {
        string_encodable(m, STRING_DEFAULT_CAP)
    }

    open spec fn spec_decode(b: Seq<u8>) -> Option<(int, Seq<char>)> {
        string_spec_decode(b, STRING_DEFAULT_CAP)
    }

    open spec fn constant_size() -> Option<usize> {
        None
    }

    fn decode(r: &mut ByteReader) -> (res: TransportResult<String>)
        ensures
            res matches Err(e) ==> e.error_type == string_decode_err(old(r)@, STRING_DEFAULT_CAP),
    {
        decode_string_capped(r, STRING_DEFAULT_CAP)
    }

    fn encode(v: &String, out: &mut Vec<u8>) -> (res: TransportResult<()>) {
        encode_string_capped(v, out, STRING_DEFAULT_CAP)
    }

    fn size(v: &String) -> (res: TransportResult<Size>) {
        match size_string_capped(v, STRING_DEFAULT_CAP) {
            Ok(n) => Ok(Size::Dynamic(n)),
            Err(e) => Err(e),
        }
    }

    proof fn roundtrip(m: Seq<char>, rest: Seq<u8>) {
        lemma_string_roundtrip(m, rest, STRING_DEFAULT_CAP);
    }

    proof fn constant_law(m: Seq<char>) {
    }

    proof fn decode_bound(b: Seq<u8>) {
        lemma_string_decode_bound(b, STRING_DEFAULT_CAP);
    }
}

/// A string component whose decoded byte length may not exceed `4 * N`.
pub struct LimitedString<const N: usize>;

impl<const N: usize> PacketComponent for LimitedString<N> {
    type Value = String;

    open spec fn wire(m: Seq<char>) -> Seq<u8> {
        string_wire(m)
    }

    open spec fn encodable(m: Seq<char>) -> bool {
        N <= 0x1fff_ffff && string_encodable(m, (4 * N) as usize)
    }

    open spec fn spec_decode(b: Seq<u8>) -> Option<(int, Seq<char>)> {
        if N <= 0x1fff_ffff {
            string_spec_decode(b, (4 * N) as usize)
        } else {
            None
        }
    }

    open spec fn constant_size() -> Option<usize> {
        None
    }

    fn decode(r: &mut ByteReader) -> (res: TransportResult<String>)
        ensures
            N <= 0x1fff_ffff ==> (res matches Err(e) ==> e.error_type == string_decode_err(
                old(r)@,
                (4 * N) as usize,
            )),
            N > 0x1fff_ffff ==> (res matches Err(e) && e.error_type == ErrorType::BoundExceeded),
    {
        if N > 0x1fff_ffff {
            return Err(TransportError::error(ErrorType::BoundExceeded));
        }
        decode_string_capped(r, 4 * N)
    }

    fn encode(v: &String, out: &mut Vec<u8>) -> (res: TransportResult<()>) {
        if N > 0x1fff_ffff {
            return Err(TransportError::error(ErrorType::BoundExceeded));
        }
        encode_string_capped(v, out, 4 * N)
    }

    fn size(v: &String) -> (res: TransportResult<Size>) {
        if N > 0x1fff_ffff {
            return Err(TransportError::error(ErrorType::BoundExceeded));
        }
        match size_string_capped(v, 4 * N) {
            Ok(n) => Ok(Size::Dynamic(n)),
            Err(e) => Err(e),
        }
    }

    proof fn roundtrip(m: Seq<char>, rest: Seq<u8>) {
        lemma_string_roundtrip(m, rest, (4 * N) as usize);
    }

    proof fn constant_law(m: Seq<char>) {
    }

    proof fn decode_bound(b: Seq<u8>) {
        if N <= 0x1fff_ffff {
            lemma_string_decode_bound(b, (4 * N) as usize);
        }
    }
}


/// The wire image of a proxy-protocol header that carries one string: a zero
/// marker, the string, a zero 16-bit field, and a trailing marker of two.
pub open spec fn shield_wire(m: Seq<char>) -> Seq<u8> {
    varnum::var_int_bytes(0) + string_wire(m) + seq![0u8, 0u8] + varnum::var_int_bytes(2)
}

/// A delegate that reads one string out of a proxy-protocol header,
/// discarding the fields around it, and writes the fixed header back.
pub struct TcpShieldHeaderDelegate;

impl PacketComponent for TcpShieldHeaderDelegate {
    type Value = String;

    open spec fn wire(m: Seq<char>) -> Seq<u8> {
        shield_wire(m)
    }

    open spec fn encodable(m: Seq<char>) -> bool {
        string_encodable(m, STRING_DEFAULT_CAP)
    }

    open spec fn spec_decode(b: Seq<u8>) -> Option<(int, Seq<char>)> {
        match varnum::var_decode(b, 5) {
            VarParsed::Value { v: v0, len: l0 } => {
                match string_spec_decode(b.skip(l0), STRING_DEFAULT_CAP) {
                    Option::Some((n1, m)) => {
                        let b2 = b.skip(l0).skip(n1);
                        if b2.len() < 2 {
                            Option::None
                        } else {
                            match varnum::var_decode(b2.skip(2), 5) {
                                VarParsed::Value { v: v2, len: l2 } => Option::Some(
                                    (l0 + n1 + 2 + l2, m),
                                ),
                                VarParsed::Eof => Option::None,
                                VarParsed::TooBig => Option::None,
                            }
                        }
                    },
                    Option::None => Option::None,
                }
            },
            VarParsed::Eof => Option::None,
            VarParsed::TooBig => Option::None,
        }
    }

    open spec fn constant_size() -> Option<usize> {
        None
    }

    fn decode(r: &mut ByteReader) -> (res: TransportResult<String>) {
        let ghost b = old(r)@;
        let _lead = match varnum::read_var_int(r) {
            Ok(x) => x,
            Err(e) => {
                return Err(e);
            },
        };
        let ghost b1 = r@;
        let out = match decode_string_capped(r, STRING_DEFAULT_CAP) {
            Ok(s) => s,
            Err(e) => {
                return Err(e);
            },
        };
        let ghost b2 = r@;
        let _pad = match crate::packet::primitive::read_be(r, 2) {
            Ok(x) => x,
            Err(e) => {
                return Err(e);
            },
        };
        let ghost b3 = r@;
        let _tail = match varnum::read_var_int(r) {
            Ok(x) => x,
            Err(e) => {
                return Err(e);
            },
        };
        proof {
            varnum::lemma_var_decode_len_bound(b, 5);
            lemma_string_decode_bound(b1, STRING_DEFAULT_CAP);
            varnum::lemma_var_decode_len_bound(b3, 5);
            if let VarParsed::Value { v: v0, len: l0 } = varnum::var_decode(b, 5) {
                if let Option::Some((n1, m)) = string_spec_decode(b1, STRING_DEFAULT_CAP) {
                    assert(b2.skip(2) =~= b3);
                    if let VarParsed::Value { v: v2, len: l2 } = varnum::var_decode(b3, 5) {
                        assert(b.skip(l0).skip(n1) =~= b2);
                        assert(b.skip(l0 + n1 + 2 + l2) =~= b3.skip(l2));
                    }
                }
            }
        }
        Ok(out)
    }

    fn encode(v: &String, out: &mut Vec<u8>) -> (res: TransportResult<()>) {
        varnum::write_var_int(out, 0);
        match encode_string_capped(v, out, STRING_DEFAULT_CAP) {
            Ok(()) => {},
            Err(e) => {
                return Err(e);
            },
        }
        proof {
            crate::packet::primitive::lemma_pow256_values();
        }
        crate::packet::primitive::write_be(out, 0, 2);
        varnum::write_var_int(out, 2);
        proof {
            assert(crate::packet::primitive::be_bytes(0, 2) =~= seq![0u8, 0u8]) by {
                assert(crate::packet::primitive::be_bytes(0, 1) =~= crate::packet::primitive::be_bytes(0, 0) + seq![0u8]);
                assert(crate::packet::primitive::be_bytes(0, 0) =~= Seq::<u8>::empty());
            }
            assert(out@ =~= old(out)@ + shield_wire(v@));
        }
        Ok(())
    }

    fn size(v: &String) -> (res: TransportResult<Size>) {
        let body = match size_string_capped(v, STRING_DEFAULT_CAP) {
            Ok(n) => n,
            Err(e) => {
                return Err(e);
            },
        };
        proof {
            assert(crate::packet::primitive::be_bytes(0, 2) =~= seq![0u8, 0u8]) by {
                assert(crate::packet::primitive::be_bytes(0, 1) =~= crate::packet::primitive::be_bytes(0, 0) + seq![0u8]);
                assert(crate::packet::primitive::be_bytes(0, 0) =~= Seq::<u8>::empty());
            }
        }
        if body > usize::MAX - 4 {
            return Err(TransportError::error(ErrorType::NumericOverflow));
        }
        Ok(Size::Dynamic(body + 4))
    }

    proof fn roundtrip(m: Seq<char>, rest: Seq<u8>) {
        let sw = string_wire(m);
        let after_str = seq![0u8, 0u8] + varnum::var_int_bytes(2) + rest;
        varnum::lemma_var_int_roundtrip(0, sw + after_str);
        let b = shield_wire(m) + rest;
        assert(varnum::var_int_bytes(0) + (sw + after_str) =~= b);
        if let VarParsed::Value { v: v0, len: l0 } = varnum::var_decode(b, 5) {
            assert(b.skip(l0) =~= sw + after_str);
            lemma_string_roundtrip(m, after_str, STRING_DEFAULT_CAP);
            let b2 = b.skip(l0).skip(sw.len() as int);
            assert(b2 =~= after_str);
            varnum::lemma_var_int_roundtrip(2, rest);
            assert(b2.skip(2) =~= varnum::var_int_bytes(2) + rest);
            assert(varnum::var_int_bytes(0).len() == 1) by {
                assert(varnum::var_encode(0nat) =~= seq![0u8]);
            }
            assert(varnum::var_int_bytes(2).len() == 1) by {
                assert(varnum::var_encode(2nat) =~= seq![2u8]);
            }
        }
    }

    proof fn decode_bound(b: Seq<u8>) {
        varnum::lemma_var_decode_len_bound(b, 5);
        if let VarParsed::Value { v: v0, len: l0 } = varnum::var_decode(b, 5) {
            lemma_string_decode_bound(b.skip(l0), STRING_DEFAULT_CAP);
            if let Option::Some((n1, m)) = string_spec_decode(b.skip(l0), STRING_DEFAULT_CAP) {
                let b2 = b.skip(l0).skip(n1);
                if b2.len() >= 2 {
                    varnum::lemma_var_decode_len_bound(b2.skip(2), 5);
                }
            }
        }
    }

    proof fn constant_law(m: Seq<char>) {
    }
}

} // verus!
