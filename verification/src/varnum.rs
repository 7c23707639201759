//! The variable-length integer codec: signed 32- and 64-bit integers are
//! carried as little-endian groups of 7 data bits with a continuation bit.
//! A 32-bit value may occupy at most 5 bytes, a 64-bit value at most 10.

use vstd::prelude::*;

use crate::error::ErrorType;
use crate::error::TransportError;
use crate::error::TransportResult;
use crate::reader::ByteReader;

verus! {

/// `128^n`, the weight of the `n`-th 7-bit group.
pub open spec fn pow128(n: nat) -> nat
    decreases n,
{
    if n == 0 {
        1
    } else {
        128 * pow128((n - 1) as nat)
    }
}

#[via_fn]
proof fn var_encode_decreases(v: nat) {
    assert(v >= 128 ==> v / 128 < v) by (nonlinear_arith);
}

/// The byte sequence that encodes the unsigned value `v`: the low 7 bits of
/// each group, with the high bit set on every byte but the last.
pub open spec fn var_encode(v: nat) -> Seq<u8>
    decreases v,
        via var_encode_decreases
{
    if v < 128 {
        seq![v as u8]
    } else {
        seq![(v % 128 + 128) as u8] + var_encode(v / 128)
    }
}

/// The bytes of a 32-bit value: its unsigned bit pattern, group-encoded.
pub open spec fn var_int_bytes(v: i32) -> Seq<u8> {
    var_encode((v as u32) as nat)
}

/// The bytes of a 64-bit value: its unsigned bit pattern, group-encoded.
pub open spec fn var_long_bytes(v: i64) -> Seq<u8> {
    var_encode((v as u64) as nat)
}

/// The outcome of scanning a byte sequence for one group-encoded integer.
pub enum VarParsed {
    /// A terminating byte was found: the unsigned value and the bytes consumed.
    Value { v: nat, len: int },
    /// The bytes ran out before a terminating byte appeared.
    Eof,
    /// No terminating byte appeared within the byte budget.
    TooBig,
}

/// Scans `b` for a group-encoded integer of at most `max` bytes.
pub open spec fn var_decode(b: Seq<u8>, max: int) -> VarParsed
    decreases max,
{
    if max <= 0 {
        VarParsed::TooBig
    } else if b.len() == 0 {
        VarParsed::Eof
    } else if b[0] < 128 {
        VarParsed::Value { v: b[0] as nat, len: 1 }
    } else {
        match var_decode(b.skip(1), max - 1) {
            VarParsed::Value { v, len } => VarParsed::Value {
                v: (b[0] - 128) as nat + 128 * v,
                len: len + 1,
            },
            VarParsed::Eof => VarParsed::Eof,
            VarParsed::TooBig => VarParsed::TooBig,
        }
    }
}

/// The 32-bit value carried by an unsigned scan result: the low 32 bits,
/// reinterpreted as signed.
pub open spec fn var_int_value(n: nat) -> i32 {
    ((n % 0x1_0000_0000) as u32) as i32
}

/// The 64-bit value carried by an unsigned scan result: the low 64 bits,
/// reinterpreted as signed.
pub open spec fn var_long_value(n: nat) -> i64 {
    ((n % 0x1_0000_0000_0000_0000) as u64) as i64
}

/// An encoding is as long as its value has 7-bit groups.
pub proof fn lemma_var_encode_len(v: nat, max: nat)
    requires
        v < pow128(max),
        max >= 1,
    ensures
        1 <= var_encode(v).len() <= max,
    decreases max,
{
    if v < 128 {
    } else {
        assert(v / 128 < pow128((max - 1) as nat) && max >= 2) by {
            assert(pow128(max) == 128 * pow128((max - 1) as nat));
            assert(v / 128 < pow128((max - 1) as nat)) by (nonlinear_arith)
                requires
                    v < 128 * pow128((max - 1) as nat),
                    v >= 128,
            ;
            if max == 1 {
                assert(pow128(0nat) == 1);
                assert(pow128(1nat) == 128 * pow128(0nat));
            }
        }
        lemma_var_encode_len(v / 128, (max - 1) as nat);
    }
}

/// A successful scan consumes between 1 byte and the whole sequence.
pub proof fn lemma_var_decode_len_bound(b: Seq<u8>, max: int)
    ensures
        var_decode(b, max) matches VarParsed::Value { v, len } ==> 1 <= len <= b.len(),
    decreases max,
{
    if max <= 0 || b.len() == 0 {
    } else if b[0] < 128 {
    } else {
        lemma_var_decode_len_bound(b.skip(1), max - 1);
    }
}

/// Scanning an encoding followed by anything yields the encoded value back,
/// consuming exactly the encoding.
pub proof fn lemma_var_roundtrip(v: nat, rest: Seq<u8>, max: int)
    requires
        v < pow128(max as nat),
        max >= 1,
    ensures
        var_decode(var_encode(v) + rest, max) == (VarParsed::Value {
            v,
            len: var_encode(v).len() as int,
        }),
    decreases max,
{
    let b = var_encode(v) + rest;
    if v < 128 {
        assert(b[0] == v as u8);
    } else {
        assert(v / 128 < pow128((max - 1) as nat)) by {
            assert(pow128(max as nat) == 128 * pow128((max - 1) as nat));
            assert(v / 128 < pow128((max - 1) as nat)) by (nonlinear_arith)
                requires
                    v < 128 * pow128((max - 1) as nat),
                    v >= 128,
            ;
        }
        assert(max >= 2) by {
            if max == 1 {
                assert(pow128(0nat) == 1);
                assert(pow128(1nat) == 128 * pow128(0nat));
            }
        }
        lemma_var_roundtrip(v / 128, rest, max - 1);
        assert(b.skip(1) =~= var_encode(v / 128) + rest);
        assert(b[0] == (v % 128 + 128) as u8);
        assert((b[0] - 128) as nat + 128 * (v / 128) == v);
    }
}

/// The byte count of the encoding of a 32-bit value.
pub fn size_var_int(var_num: i32) -> (r: usize)
    ensures
        r == var_int_bytes(var_num).len(),
        1 <= r <= 5,
{
    let r = size_var_u64(#[verifier::truncate] (var_num as u32) as u64);
    proof {
        lemma_pow128_values();
        lemma_var_encode_len((var_num as u32) as nat, 5);
    }
    r
}

/// The byte count of the encoding of a 64-bit value.
pub fn size_var_long(var_num: i64) -> (r: usize)
    ensures
        r == var_long_bytes(var_num).len(),
        1 <= r <= 10,
{
    let r = size_var_u64(#[verifier::truncate] (var_num as u64));
    proof {
        lemma_pow128_values();
        lemma_var_encode_len((var_num as u64) as nat, 10);
    }
    r
}

fn size_var_u64(v: u64) -> (r: usize)
    ensures
        r == var_encode(v as nat).len(),
        r >= 1,
    decreases v,
{
    if v < 128 {
        1
    } else {
        proof {
            assert(v / 128 < v) by (nonlinear_arith)
                requires
                    v >= 128,
            ;
        }
        let rest = size_var_u64(v / 128);
        proof {
            lemma_pow128_values();
            lemma_var_encode_len(v as nat, 10);
        }
        1 + rest
    }
}

/// Appends the encoding of a 32-bit value to `out`.
pub fn write_var_int(out: &mut Vec<u8>, value: i32)
    ensures
        final(out)@ == old(out)@ + var_int_bytes(value),
{
    write_var_u64(out, #[verifier::truncate] (value as u32) as u64)
}

/// Appends the encoding of a 64-bit value to `out`.
pub fn write_var_long(out: &mut Vec<u8>, value: i64)
    ensures
        final(out)@ == old(out)@ + var_long_bytes(value),
{
    write_var_u64(out, #[verifier::truncate] (value as u64))
}

fn write_var_u64(out: &mut Vec<u8>, v: u64)
    ensures
        final(out)@ == old(out)@ + var_encode(v as nat),
    decreases v,
{
    if v < 128 {
        out.push(v as u8);
        proof {
            assert(out@ =~= old(out)@ + var_encode(v as nat));
        }
    } else {
        out.push((v % 128 + 128) as u8);
        proof {
            assert(v / 128 < v) by (nonlinear_arith)
                requires
                    v >= 128,
            ;
        }
        write_var_u64(out, v / 128);
        proof {
            assert(out@ =~= old(out)@ + var_encode(v as nat));
        }
    }
}

/// Reads a group-encoded integer of at most `max` bytes, returning its exact
/// unsigned value.
fn read_var_u128(r: &mut ByteReader, max: u32) -> (res: TransportResult<u128>)
    requires
        old(r).wf(),
        max <= 10,
    ensures
        final(r).wf(),
        match var_decode(old(r)@, max as int) {
            VarParsed::Value { v, len } => res matches Ok(x) && x as nat == v && final(r)@ == old(r)@.skip(len),
            VarParsed::Eof => res matches Err(e) && e.error_type == ErrorType::EOF,
            VarParsed::TooBig => res matches Err(e) && e.error_type == ErrorType::VarNumTooLarge,
        },
        res matches Ok(x) ==> (x as nat) < pow128(max as nat),
    decreases max,
{
    if max == 0 {
        return Err(TransportError::error(ErrorType::VarNumTooLarge));
    }
    let b = match r.read_u8() {
        Ok(b) => b,
        Err(e) => {
            return Err(e);
        },
    };
    if b < 128 {
        proof {
            lemma_pow128_values();
            lemma_pow128_increases(1, max as nat);
        }
        Ok(b as u128)
    } else {
        match read_var_u128(r, max - 1) {
            Ok(rest) => {
                proof {
                    lemma_var_decode_len_bound(old(r)@.skip(1), max as int - 1);
                    if let VarParsed::Value { v: vr, len: lr } = var_decode(
                        old(r)@.skip(1),
                        max as int - 1,
                    ) {
                        assert(old(r)@.skip(1).skip(lr) =~= old(r)@.skip(1 + lr));
                    }
                    lemma_pow128_mul(max as nat);
                    assert((b - 128) as nat + 128 * (rest as nat) < pow128(max as nat))
                        by (nonlinear_arith)
                        requires
                            (rest as nat) < pow128((max - 1) as nat),
                            b < 256,
                            b >= 128,
                            pow128(max as nat) == 128 * pow128((max - 1) as nat),
                    ;
                    lemma_pow128_values();
                    lemma_pow128_increases(max as nat, 10);
                }
                Ok((b - 128) as u128 + 128 * rest)
            },
            Err(e) => Err(e),
        }
    }
}

/// The concrete weights of the 5-byte and 10-byte budgets.
pub proof fn lemma_pow128_values()
    ensures
        pow128(0nat) == 1,
        pow128(1nat) == 0x80,
        pow128(2nat) == 0x4000,
        pow128(3nat) == 0x20_0000,
        pow128(4nat) == 0x1000_0000,
        pow128(5nat) == 0x8_0000_0000,
        pow128(6nat) == 0x400_0000_0000,
        pow128(7nat) == 0x2_0000_0000_0000,
        pow128(8nat) == 0x100_0000_0000_0000,
        pow128(9nat) == 0x8000_0000_0000_0000,
        pow128(10nat) == 0x40_0000_0000_0000_0000,
{
    assert(pow128(0nat) == 1);
    assert(pow128(1nat) == 128 * pow128(0nat));
    assert(pow128(2nat) == 128 * pow128(1nat));
    assert(pow128(3nat) == 128 * pow128(2nat));
    assert(pow128(4nat) == 128 * pow128(3nat));
    assert(pow128(5nat) == 128 * pow128(4nat));
    assert(pow128(6nat) == 128 * pow128(5nat));
    assert(pow128(7nat) == 128 * pow128(6nat));
    assert(pow128(8nat) == 128 * pow128(7nat));
    assert(pow128(9nat) == 128 * pow128(8nat));
    assert(pow128(10nat) == 128 * pow128(9nat));
}

proof fn lemma_pow128_mul(n: nat)
    requires
        n >= 1,
    ensures
        pow128(n) == 128 * pow128((n - 1) as nat),
{
}

proof fn lemma_pow128_increases(a: nat, b: nat)
    requires
        a <= b,
    ensures
        pow128(a) <= pow128(b),
    decreases b,
{
    if a < b {
        lemma_pow128_increases(a, (b - 1) as nat);
        assert(pow128(b) == 128 * pow128((b - 1) as nat));
        assert(128 * pow128((b - 1) as nat) >= pow128((b - 1) as nat)) by (nonlinear_arith)
            requires
                pow128((b - 1) as nat) >= 0,
        ;
    }
}

/// Reads a 32-bit value from at most 5 bytes.
pub fn read_var_int(r: &mut ByteReader) -> (res: TransportResult<i32>)
    requires
        old(r).wf(),
    ensures
        final(r).wf(),
        match var_decode(old(r)@, 5) {
            VarParsed::Value { v, len } => res matches Ok(x) && x == var_int_value(v) && final(r)@
                == old(r)@.skip(len),
            VarParsed::Eof => res matches Err(e) && e.error_type == ErrorType::EOF,
            VarParsed::TooBig => res matches Err(e) && e.error_type == ErrorType::VarNumTooLarge,
        },
{
    match read_var_u128(r, 5) {
        Ok(v) => {
            let t: u32 = #[verifier::truncate] (v as u32);
            proof {
                assert((v as u32) == (v % 0x1_0000_0000) as u32) by (bit_vector);
            }
            Ok(t as i32)
        },
        Err(e) => Err(e),
    }
}

/// Reads a 64-bit value from at most 10 bytes.
pub fn read_var_long(r: &mut ByteReader) -> (res: TransportResult<i64>)
    requires
        old(r).wf(),
    ensures
        final(r).wf(),
        match var_decode(old(r)@, 10) {
            VarParsed::Value { v, len } => res matches Ok(x) && x == var_long_value(v) && final(r)@
                == old(r)@.skip(len),
            VarParsed::Eof => res matches Err(e) && e.error_type == ErrorType::EOF,
            VarParsed::TooBig => res matches Err(e) && e.error_type == ErrorType::VarNumTooLarge,
        },
{
    match read_var_u128(r, 10) {
        Ok(v) => {
            let t: u64 = #[verifier::truncate] (v as u64);
            proof {
                assert((v as u64) == (v % 0x1_0000_0000_0000_0000) as u64) by (bit_vector);
            }
            Ok(t as i64)
        },
        Err(e) => Err(e),
    }
}

/// Writing a 32-bit value and scanning the result yields the value back:
/// the codec is lossless, and the scan consumes exactly the written bytes.
pub proof fn lemma_var_int_roundtrip(v: i32, rest: Seq<u8>)
    ensures
        var_decode(var_int_bytes(v) + rest, 5) matches VarParsed::Value { v: n, len } && len
            == var_int_bytes(v).len() && var_int_value(n) == v,
{
    lemma_pow128_values();
    lemma_var_roundtrip((v as u32) as nat, rest, 5);
    let n = (v as u32) as nat;
    assert(n % 0x1_0000_0000 == n);
    assert((n % 0x1_0000_0000) as u32 == v as u32);
    assert((v as u32) as i32 == v) by (bit_vector);
    assert(var_int_value(n) == v);
}

/// Writing a 64-bit value and scanning the result yields the value back.
pub proof fn lemma_var_long_roundtrip(v: i64, rest: Seq<u8>)
    ensures
        var_decode(var_long_bytes(v) + rest, 10) matches VarParsed::Value { v: n, len } && len
            == var_long_bytes(v).len() && var_long_value(n) == v,
{
    lemma_pow128_values();
    lemma_var_roundtrip((v as u64) as nat, rest, 10);
    let n = (v as u64) as nat;
    assert(n % 0x1_0000_0000_0000_0000 == n);
    assert((n % 0x1_0000_0000_0000_0000) as u64 == v as u64);
    assert((v as u64) as i64 == v) by (bit_vector);
    assert(var_long_value(n) == v);
}

} // verus!
