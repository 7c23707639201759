//! Length-prefixed string helpers: a byte-count prefix in the variable-length
//! encoding, then the UTF-8 bytes, with a caller-chosen character bound.

use vstd::prelude::*;
use vstd::utf8::decode_utf8;
use vstd::utf8::encode_utf8;
use vstd::utf8::valid_utf8;

use crate::error::ErrorType;
use crate::error::TransportError;
use crate::error::TransportResult;
use crate::packet::string::append_bytes;
use crate::packet::string::string_from_utf8;
use crate::reader::ByteReader;
use crate::varnum;
use crate::varnum::VarParsed;

verus! {

/// Appends a byte-count prefix and the bytes themselves, with no bound
/// check: the caller has already checked the bound.
pub fn write_string_checked(bytes: &Vec<u8>, writer: &mut Vec<u8>) -> (res: TransportResult<()>)
    ensures
        res is Ok <==> bytes@.len() <= 0x7fff_ffff,
        res is Ok ==> final(writer)@ == old(writer)@ + varnum::var_int_bytes(bytes@.len() as i32)
            + bytes@,
{
    if bytes.len() > 0x7fff_ffff {
        return Err(TransportError::error(ErrorType::NumericOverflow));
    }
    varnum::write_var_int(writer, bytes.len() as i32);
    append_bytes(writer, bytes);
    Ok(())
}

/// Appends a string as a byte-count prefix and its UTF-8 bytes, rejecting
/// strings whose byte count exceeds three bytes for each of `max_length`
/// characters.
pub fn write_string(max_length: usize, string: &String, writer: &mut Vec<u8>) -> (res:
    TransportResult<()>)
    requires
        max_length <= 0x2aaa_aaaa,
    ensures
        res is Ok <==> encode_utf8(string@).len() <= 3 * max_length,
        res is Ok ==> final(writer)@ == old(writer)@ + varnum::var_int_bytes(
            encode_utf8(string@).len() as i32,
        ) + encode_utf8(string@),
{
    let bytes = string.as_str().as_bytes_vec();
    if bytes.len() > 3 * max_length {
        return Err(
            TransportError::measured(
                bytes.len() as u64,
                (3 * max_length) as u64,
                ErrorType::BoundExceeded,
            ),
        );
    }
    write_string_checked(&bytes, writer)
}

/// Reads exactly `length` bytes and decodes them as UTF-8.
pub fn read_string_checked(length: usize, reader: &mut ByteReader) -> (res: TransportResult<
    String,
>)
    requires
        old(reader).wf(),
    ensures
        final(reader).wf(),
        res matches Ok(s) ==> length <= old(reader)@.len() && valid_utf8(
            old(reader)@.take(length as int),
        ) && s@ == decode_utf8(old(reader)@.take(length as int)) && final(reader)@ == old(reader)@.skip(length as int),
        length > old(reader)@.len() ==> (res matches Err(e) && e.error_type == ErrorType::EOF),
        length <= old(reader)@.len() && !valid_utf8(old(reader)@.take(length as int)) ==> (res
            matches Err(e) && e.error_type == ErrorType::InvalidText),
        length <= old(reader)@.len() && valid_utf8(old(reader)@.take(length as int)) ==> res
            is Ok,
{
    let bytes = reader.read_exact(length)?;
    match string_from_utf8(bytes) {
        Some(s) => Ok(s),
        None => Err(TransportError::error(ErrorType::InvalidText)),
    }
}

/// Reads a byte-count prefix, rejects counts above three bytes for each of
/// `max_length` characters, and decodes that many bytes as UTF-8.
pub fn read_string(max_length: usize, reader: &mut ByteReader) -> (res: TransportResult<String>)
    requires
        old(reader).wf(),
        max_length <= 0x2aaa_aaaa,
    ensures
        final(reader).wf(),
        res matches Ok(s) ==> (varnum::var_decode(old(reader)@, 5) matches VarParsed::Value {
            v,
            len,
        } && {
            let declared = varnum::var_int_value(v);
            &&& 0 <= declared <= 3 * max_length
            &&& declared <= old(reader)@.skip(len).len()
            &&& valid_utf8(old(reader)@.skip(len).take(declared as int))
            &&& s@ == decode_utf8(old(reader)@.skip(len).take(declared as int))
            &&& final(reader)@ == old(reader)@.skip(len + declared as int)
        }),
        (varnum::var_decode(old(reader)@, 5) matches VarParsed::Value { v, len } && {
            let declared = varnum::var_int_value(v);
            &&& 0 <= declared <= 3 * max_length
            &&& declared <= old(reader)@.skip(len).len()
            &&& valid_utf8(old(reader)@.skip(len).take(declared as int))
        }) ==> res is Ok,
        res matches Err(e) ==> e.error_type == (match varnum::var_decode(old(reader)@, 5) {
            VarParsed::Value { v, len } => {
                let declared = varnum::var_int_value(v);
                if declared > 3 * max_length {
                    ErrorType::BoundExceeded
                } else if declared < 0 {
                    ErrorType::NumericOverflow
                } else if old(reader)@.skip(len).len() < declared {
                    ErrorType::EOF
                } else {
                    ErrorType::InvalidText
                }
            },
            VarParsed::Eof => ErrorType::EOF,
            VarParsed::TooBig => ErrorType::VarNumTooLarge,
        }),
{
    let declared = varnum::read_var_int(reader)?;
    if declared > (3 * max_length) as i32 {
        return Err(
            TransportError::measured(
                declared as u64,
                (3 * max_length) as u64,
                ErrorType::BoundExceeded,
            ),
        );
    }
    if declared < 0 {
        return Err(TransportError::error(ErrorType::NumericOverflow));
    }
    let ghost mid = reader@;
    let s = read_string_checked(declared as usize, reader)?;
    proof {
        varnum::lemma_var_decode_len_bound(old(reader)@, 5);
        if let VarParsed::Value { v, len } = varnum::var_decode(old(reader)@, 5) {
            assert(old(reader)@.skip(len).skip(declared as int) =~= old(reader)@.skip(
                len + declared as int,
            ));
        }
    }
    Ok(s)
}

/// The byte count that `write_string` produces for a string: the prefix
/// plus the UTF-8 bytes.
pub fn size_string(value: &String) -> (res: TransportResult<usize>)
    ensures
        res is Ok <==> encode_utf8(value@).len() <= 0x7fff_ffff,
        res matches Ok(n) ==> n == varnum::var_int_bytes(encode_utf8(value@).len() as i32).len()
            + encode_utf8(value@).len(),
{
    let byte_len = value.as_str().as_bytes_vec().len();
    if byte_len > 0x7fff_ffff {
        return Err(TransportError::error(ErrorType::NumericOverflow));
    }
    let prefix = varnum::size_var_int(byte_len as i32);
    Ok(prefix + byte_len)
}

} // verus!
