//! Component implementations for fixed-width primitives (big-endian wire
//! format), booleans, the unit type, and the variable-length integer
//! delegates [`VarInt`] and [`VarLong`].

use vstd::prelude::*;

use crate::error::ErrorType;
use crate::error::TransportError;
use crate::error::TransportResult;
use crate::packet::PacketComponent;
use crate::packet::Size;
use crate::reader::ByteReader;
use crate::varnum;
use crate::varnum::VarParsed;

verus! {

/// `256^n`, the weight of the `n`-th byte from the end in big-endian order.
pub open spec fn pow256(n: nat) -> nat
    decreases n,
{
    if n == 0 {
        1
    } else {
        256 * pow256((n - 1) as nat)
    }
}

/// The concrete weights of widths up to 8 bytes.
pub proof fn lemma_pow256_values()
    ensures
        pow256(0nat) == 1,
        pow256(1nat) == 0x100,
        pow256(2nat) == 0x1_0000,
        pow256(3nat) == 0x100_0000,
        pow256(4nat) == 0x1_0000_0000,
        pow256(5nat) == 0x100_0000_0000,
        pow256(6nat) == 0x1_0000_0000_0000,
        pow256(7nat) == 0x100_0000_0000_0000,
        pow256(8nat) == 0x1_0000_0000_0000_0000,
{
    assert(pow256(0nat) == 1);
    assert(pow256(1nat) == 256 * pow256(0nat));
    assert(pow256(2nat) == 256 * pow256(1nat));
    assert(pow256(3nat) == 256 * pow256(2nat));
    assert(pow256(4nat) == 256 * pow256(3nat));
    assert(pow256(5nat) == 256 * pow256(4nat));
    assert(pow256(6nat) == 256 * pow256(5nat));
    assert(pow256(7nat) == 256 * pow256(6nat));
    assert(pow256(8nat) == 256 * pow256(7nat));
}

/// The big-endian bytes of `v` over `width` bytes.
pub open spec fn be_bytes(v: nat, width: nat) -> Seq<u8>
    decreases width,
{
    if width == 0 {
        Seq::empty()
    } else {
        be_bytes(v / 256, (width - 1) as nat) + seq![(v % 256) as u8]
    }
}

/// The unsigned value of a big-endian byte sequence.
pub open spec fn be_value(b: Seq<u8>) -> nat
    decreases b.len(),
{
    if b.len() == 0 {
        0
    } else {
        (256 * be_value(b.drop_last()) + b.last()) as nat
    }
}

/// A big-endian image has exactly its width.
pub proof fn lemma_be_bytes_len(v: nat, width: nat)
    ensures
        be_bytes(v, width).len() == width,
    decreases width,
{
    if width > 0 {
        lemma_be_bytes_len(v / 256, (width - 1) as nat);
    }
}

/// Reading back a big-endian image yields the value, if it fit the width.
pub proof fn lemma_be_roundtrip(v: nat, width: nat)
    requires
        v < pow256(width),
    ensures
        be_value(be_bytes(v, width)) == v,
    decreases width,
{
    if width == 0 {
    } else {
        assert(v / 256 < pow256((width - 1) as nat)) by (nonlinear_arith)
            requires
                v < 256 * pow256((width - 1) as nat),
        ;
        lemma_be_roundtrip(v / 256, (width - 1) as nat);
        lemma_be_bytes_len(v / 256, (width - 1) as nat);
        let b = be_bytes(v, width);
        assert(b.drop_last() =~= be_bytes(v / 256, (width - 1) as nat));
        assert(b.last() == (v % 256) as u8);
    }
}

/// A byte sequence's value fits its width.
pub proof fn lemma_be_value_bound(b: Seq<u8>)
    ensures
        be_value(b) < pow256(b.len()),
    decreases b.len(),
{
    if b.len() > 0 {
        lemma_be_value_bound(b.drop_last());
        assert(256 * be_value(b.drop_last()) + b.last() < 256 * pow256((b.len() - 1) as nat))
            by (nonlinear_arith)
            requires
                be_value(b.drop_last()) < pow256((b.len() - 1) as nat),
                b.last() < 256,
        ;
    }
}

/// Appends the big-endian image of `v` over `width` bytes.
pub fn write_be(out: &mut Vec<u8>, v: u64, width: usize)
    requires
        width <= 8,
        (v as nat) < pow256(width as nat),
    ensures
        final(out)@ == old(out)@ + be_bytes(v as nat, width as nat),
    decreases width,
{
    if width == 0 {
        proof {
            assert(out@ =~= old(out)@ + be_bytes(v as nat, 0));
        }
    } else {
        proof {
            assert((v as nat) / 256 < pow256((width - 1) as nat)) by (nonlinear_arith)
                requires
                    (v as nat) < 256 * pow256((width - 1) as nat),
            ;
        }
        write_be(out, v / 256, width - 1);
        out.push((v % 256) as u8);
        proof {
            assert(out@ =~= old(out)@ + be_bytes(v as nat, width as nat));
        }
    }
}

/// Reads `width` big-endian bytes as an unsigned value.
pub fn read_be(r: &mut ByteReader, width: usize) -> (res: TransportResult<u64>)
    requires
        old(r).wf(),
        width <= 8,
    ensures
        final(r).wf(),
        old(r)@.len() >= width ==> (res matches Ok(x) && x as nat == be_value(
            old(r)@.take(width as int),
        ) && final(r)@ == old(r)@.skip(width as int)),
        old(r)@.len() < width ==> (res matches Err(e) && e.error_type == ErrorType::EOF && final(r)@ == old(r)@),
{
    let bytes = match r.read_exact(width) {
        Ok(b) => b,
        Err(e) => {
            return Err(e);
        },
    };
    let mut acc: u64 = 0;
    let mut i: usize = 0;
    proof {
        lemma_pow256_values();
    }
    while i < width
        invariant
            i <= width,
            width <= 8,
            bytes@.len() == width,
            acc as nat == be_value(bytes@.take(i as int)),
            (acc as nat) < pow256(i as nat),
            pow256(8nat) == 0x1_0000_0000_0000_0000,
        decreases width - i,
    {
        proof {
            lemma_pow256_values();
            lemma_pow256_increases(i as nat + 1, 8);
            assert(bytes@.take(i as int + 1).drop_last() =~= bytes@.take(i as int));
            assert(bytes@.take(i as int + 1).last() == bytes@[i as int]);
            assert(256 * (acc as nat) + 256 < 256 * pow256(i as nat) + 256) by (nonlinear_arith)
                requires
                    (acc as nat) < pow256(i as nat),
            ;
        }
        acc = 256 * acc + (bytes[i] as u64);
        i = i + 1;
    }
    proof {
        assert(bytes@.take(width as int) =~= bytes@);
    }
    Ok(acc)
}

proof fn lemma_pow256_increases(a: nat, b: nat)
    requires
        a <= b,
    ensures
        pow256(a) <= pow256(b),
    decreases b,
{
    if a < b {
        lemma_pow256_increases(a, (b - 1) as nat);
        assert(256 * pow256((b - 1) as nat) >= pow256((b - 1) as nat)) by (nonlinear_arith)
            requires
                pow256((b - 1) as nat) >= 0,
        ;
    }
}

impl PacketComponent for () {
    type Value = ();

    open spec fn wire(m: ()) -> Seq<u8> {
        Seq::empty()
    }

    open spec fn encodable(m: ()) -> bool {
        true
    }

    open spec fn spec_decode(b: Seq<u8>) -> Option<(int, ())> {
        Some((0, ()))
    }

    open spec fn constant_size() -> Option<usize> {
        Some(0usize)
    }

    fn decode(r: &mut ByteReader) -> (res: TransportResult<()>) {
        proof {
            assert(r@ =~= old(r)@.skip(0));
        }
        Ok(())
    }

    fn encode(v: &(), out: &mut Vec<u8>) -> (res: TransportResult<()>) {
        proof {
            assert(out@ =~= old(out)@ + Seq::<u8>::empty());
        }
        Ok(())
    }

    fn size(v: &()) -> (res: TransportResult<Size>) {
        Ok(Size::Constant(0))
    }

    proof fn roundtrip(m: (), rest: Seq<u8>) {
        assert(Seq::<u8>::empty() + rest =~= rest);
    }

    proof fn constant_law(m: ()) {
    }

    proof fn decode_bound(b: Seq<u8>) {
    }
}

impl PacketComponent for bool {
    type Value = bool;

    open spec fn wire(m: bool) -> Seq<u8> {
        if m {
            seq![1u8]
        } else {
            seq![0u8]
        }
    }

    open spec fn encodable(m: bool) -> bool {
        true
    }

    open spec fn spec_decode(b: Seq<u8>) -> Option<(int, bool)> {
        if b.len() >= 1 {
            Some((1, b[0] != 0))
        } else {
            None
        }
    }

    open spec fn constant_size() -> Option<usize> {
        Some(1usize)
    }

    fn decode(r: &mut ByteReader) -> (res: TransportResult<bool>) {
        let b = match r.read_u8() {
            Ok(b) => b,
            Err(e) => {
                return Err(e);
            },
        };
        Ok(b != 0)
    }

    fn encode(v: &bool, out: &mut Vec<u8>) -> (res: TransportResult<()>) {
        out.push(if *v {
            1
        } else {
            0
        });
        proof {
            assert(out@ =~= old(out)@ + Self::wire(*v));
        }
        Ok(())
    }

    fn size(v: &bool) -> (res: TransportResult<Size>) {
        Ok(Size::Constant(1))
    }

    proof fn roundtrip(m: bool, rest: Seq<u8>) {
        let b = Self::wire(m) + rest;
        assert(b[0] == (if m { 1u8 } else { 0u8 }));
    }

    proof fn constant_law(m: bool) {
    }

    proof fn decode_bound(b: Seq<u8>) {
    }
}

impl PacketComponent for u8 {
    type Value = u8;

    open spec fn wire(m: u8) -> Seq<u8> {
        be_bytes(m as nat, 1)
    }

    open spec fn encodable(m: u8) -> bool {
        true
    }

    open spec fn spec_decode(b: Seq<u8>) -> Option<(int, u8)> {
        if b.len() >= 1 {
            Some((1, be_value(b.take(1)) as u8))
        } else {
            None
        }
    }

    open spec fn constant_size() -> Option<usize> {
        Some(1usize)
    }

    fn decode(r: &mut ByteReader) -> (res: TransportResult<u8>) {
        proof {
            lemma_pow256_values();
            if old(r)@.len() >= 1 {
                lemma_be_value_bound(old(r)@.take(1));
            }
        }
        let x = read_be(r, 1)?;
        Ok(x as u8)
    }

    fn encode(v: &u8, out: &mut Vec<u8>) -> (res: TransportResult<()>) {
        proof {
            lemma_pow256_values();
        }
        write_be(out, *v as u64, 1);
        Ok(())
    }

    fn size(v: &u8) -> (res: TransportResult<Size>) {
        proof {
            lemma_be_bytes_len(*v as nat, 1);
        }
        Ok(Size::Constant(1))
    }

    proof fn roundtrip(m: u8, rest: Seq<u8>) {
        lemma_pow256_values();
        lemma_be_bytes_len(m as nat, 1);
        lemma_be_roundtrip(m as nat, 1);
        assert((be_bytes(m as nat, 1) + rest).take(1) =~= be_bytes(m as nat, 1));
    }

    proof fn decode_bound(b: Seq<u8>) {
    }

    proof fn constant_law(m: u8) {
        lemma_be_bytes_len(m as nat, 1);
    }
}

impl PacketComponent for u16 {
    type Value = u16;

    open spec fn wire(m: u16) -> Seq<u8> {
        be_bytes(m as nat, 2)
    }

    open spec fn encodable(m: u16) -> bool {
        true
    }

    open spec fn spec_decode(b: Seq<u8>) -> Option<(int, u16)> {
        if b.len() >= 2 {
            Some((2, be_value(b.take(2)) as u16))
        } else {
            None
        }
    }

    open spec fn constant_size() -> Option<usize> {
        Some(2usize)
    }

    fn decode(r: &mut ByteReader) -> (res: TransportResult<u16>) {
        proof {
            lemma_pow256_values();
            if old(r)@.len() >= 2 {
                lemma_be_value_bound(old(r)@.take(2));
            }
        }
        let x = read_be(r, 2)?;
        Ok(x as u16)
    }

    fn encode(v: &u16, out: &mut Vec<u8>) -> (res: TransportResult<()>) {
        proof {
            lemma_pow256_values();
        }
        write_be(out, *v as u64, 2);
        Ok(())
    }

    fn size(v: &u16) -> (res: TransportResult<Size>) {
        proof {
            lemma_be_bytes_len(*v as nat, 2);
        }
        Ok(Size::Constant(2))
    }

    proof fn roundtrip(m: u16, rest: Seq<u8>) {
        lemma_pow256_values();
        lemma_be_bytes_len(m as nat, 2);
        lemma_be_roundtrip(m as nat, 2);
        assert((be_bytes(m as nat, 2) + rest).take(2) =~= be_bytes(m as nat, 2));
    }

    proof fn decode_bound(b: Seq<u8>) {
    }

    proof fn constant_law(m: u16) {
        lemma_be_bytes_len(m as nat, 2);
    }
}

impl PacketComponent for u32 {
    type Value = u32;

    open spec fn wire(m: u32) -> Seq<u8> {
        be_bytes(m as nat, 4)
    }

    open spec fn encodable(m: u32) -> bool {
        true
    }

    open spec fn spec_decode(b: Seq<u8>) -> Option<(int, u32)> {
        if b.len() >= 4 {
            Some((4, be_value(b.take(4)) as u32))
        } else {
            None
        }
    }

    open spec fn constant_size() -> Option<usize> {
        Some(4usize)
    }

    fn decode(r: &mut ByteReader) -> (res: TransportResult<u32>) {
        proof {
            lemma_pow256_values();
            if old(r)@.len() >= 4 {
                lemma_be_value_bound(old(r)@.take(4));
            }
        }
        let x = read_be(r, 4)?;
        Ok(x as u32)
    }

    fn encode(v: &u32, out: &mut Vec<u8>) -> (res: TransportResult<()>) {
        proof {
            lemma_pow256_values();
        }
        write_be(out, *v as u64, 4);
        Ok(())
    }

    fn size(v: &u32) -> (res: TransportResult<Size>) {
        proof {
            lemma_be_bytes_len(*v as nat, 4);
        }
        Ok(Size::Constant(4))
    }

    proof fn roundtrip(m: u32, rest: Seq<u8>) {
        lemma_pow256_values();
        lemma_be_bytes_len(m as nat, 4);
        lemma_be_roundtrip(m as nat, 4);
        assert((be_bytes(m as nat, 4) + rest).take(4) =~= be_bytes(m as nat, 4));
    }

    proof fn decode_bound(b: Seq<u8>) {
    }

    proof fn constant_law(m: u32) {
        lemma_be_bytes_len(m as nat, 4);
    }
}

impl PacketComponent for u64 {
    type Value = u64;

    open spec fn wire(m: u64) -> Seq<u8> {
        be_bytes(m as nat, 8)
    }

    open spec fn encodable(m: u64) -> bool {
        true
    }

    open spec fn spec_decode(b: Seq<u8>) -> Option<(int, u64)> {
        if b.len() >= 8 {
            Some((8, be_value(b.take(8)) as u64))
        } else {
            None
        }
    }

    open spec fn constant_size() -> Option<usize> {
        Some(8usize)
    }

    fn decode(r: &mut ByteReader) -> (res: TransportResult<u64>) {
        proof {
            lemma_pow256_values();
            if old(r)@.len() >= 8 {
                lemma_be_value_bound(old(r)@.take(8));
            }
        }
        let x = read_be(r, 8)?;
        Ok(x)
    }

    fn encode(v: &u64, out: &mut Vec<u8>) -> (res: TransportResult<()>) {
        proof {
            lemma_pow256_values();
        }
        write_be(out, *v, 8);
        Ok(())
    }

    fn size(v: &u64) -> (res: TransportResult<Size>) {
        proof {
            lemma_be_bytes_len(*v as nat, 8);
        }
        Ok(Size::Constant(8))
    }

    proof fn roundtrip(m: u64, rest: Seq<u8>) {
        lemma_pow256_values();
        lemma_be_bytes_len(m as nat, 8);
        lemma_be_roundtrip(m as nat, 8);
        assert((be_bytes(m as nat, 8) + rest).take(8) =~= be_bytes(m as nat, 8));
    }

    proof fn decode_bound(b: Seq<u8>) {
    }

    proof fn constant_law(m: u64) {
        lemma_be_bytes_len(m as nat, 8);
    }
}

impl PacketComponent for i8 {
    type Value = i8;

    open spec fn wire(m: i8) -> Seq<u8> {
        be_bytes((m as u8) as nat, 1)
    }

    open spec fn encodable(m: i8) -> bool {
        true
    }

    open spec fn spec_decode(b: Seq<u8>) -> Option<(int, i8)> {
        if b.len() >= 1 {
            Some((1, (be_value(b.take(1)) as u8) as i8))
        } else {
            None
        }
    }

    open spec fn constant_size() -> Option<usize> {
        Some(1usize)
    }

    fn decode(r: &mut ByteReader) -> (res: TransportResult<i8>) {
        proof {
            lemma_pow256_values();
            if old(r)@.len() >= 1 {
                lemma_be_value_bound(old(r)@.take(1));
            }
        }
        let x = read_be(r, 1)?;
        Ok((x as u8) as i8)
    }

    fn encode(v: &i8, out: &mut Vec<u8>) -> (res: TransportResult<()>) {
        proof {
            lemma_pow256_values();
        }
        let u: u8 = #[verifier::truncate] (*v as u8);
        write_be(out, u as u64, 1);
        Ok(())
    }

    fn size(v: &i8) -> (res: TransportResult<Size>) {
        proof {
            lemma_be_bytes_len((*v as u8) as nat, 1);
        }
        Ok(Size::Constant(1))
    }

    proof fn roundtrip(m: i8, rest: Seq<u8>) {
        lemma_pow256_values();
        lemma_be_bytes_len((m as u8) as nat, 1);
        lemma_be_roundtrip((m as u8) as nat, 1);
        assert((be_bytes((m as u8) as nat, 1) + rest).take(1) =~= be_bytes(
            (m as u8) as nat,
            1,
        ));
        assert((m as u8) as i8 == m) by (bit_vector);
    }

    proof fn decode_bound(b: Seq<u8>) {
    }

    proof fn constant_law(m: i8) {
        lemma_be_bytes_len((m as u8) as nat, 1);
    }
}

impl PacketComponent for i16 {
    type Value = i16;

    open spec fn wire(m: i16) -> Seq<u8> {
        be_bytes((m as u16) as nat, 2)
    }

    open spec fn encodable(m: i16) -> bool {
        true
    }

    open spec fn spec_decode(b: Seq<u8>) -> Option<(int, i16)> {
        if b.len() >= 2 {
            Some((2, (be_value(b.take(2)) as u16) as i16))
        } else {
            None
        }
    }

    open spec fn constant_size() -> Option<usize> {
        Some(2usize)
    }

    fn decode(r: &mut ByteReader) -> (res: TransportResult<i16>) {
        proof {
            lemma_pow256_values();
            if old(r)@.len() >= 2 {
                lemma_be_value_bound(old(r)@.take(2));
            }
        }
        let x = read_be(r, 2)?;
        Ok((x as u16) as i16)
    }

    fn encode(v: &i16, out: &mut Vec<u8>) -> (res: TransportResult<()>) {
        proof {
            lemma_pow256_values();
        }
        let u: u16 = #[verifier::truncate] (*v as u16);
        write_be(out, u as u64, 2);
        Ok(())
    }

    fn size(v: &i16) -> (res: TransportResult<Size>) {
        proof {
            lemma_be_bytes_len((*v as u16) as nat, 2);
        }
        Ok(Size::Constant(2))
    }

    proof fn roundtrip(m: i16, rest: Seq<u8>) {
        lemma_pow256_values();
        lemma_be_bytes_len((m as u16) as nat, 2);
        lemma_be_roundtrip((m as u16) as nat, 2);
        assert((be_bytes((m as u16) as nat, 2) + rest).take(2) =~= be_bytes(
            (m as u16) as nat,
            2,
        ));
        assert((m as u16) as i16 == m) by (bit_vector);
    }

    proof fn decode_bound(b: Seq<u8>) {
    }

    proof fn constant_law(m: i16) {
        lemma_be_bytes_len((m as u16) as nat, 2);
    }
}

impl PacketComponent for i32 {
    type Value = i32;

    open spec fn wire(m: i32) -> Seq<u8> {
        be_bytes((m as u32) as nat, 4)
    }

    open spec fn encodable(m: i32) -> bool {
        true
    }

    open spec fn spec_decode(b: Seq<u8>) -> Option<(int, i32)> {
        if b.len() >= 4 {
            Some((4, (be_value(b.take(4)) as u32) as i32))
        } else {
            None
        }
    }

    open spec fn constant_size() -> Option<usize> {
        Some(4usize)
    }

    fn decode(r: &mut ByteReader) -> (res: TransportResult<i32>) {
        proof {
            lemma_pow256_values();
            if old(r)@.len() >= 4 {
                lemma_be_value_bound(old(r)@.take(4));
            }
        }
        let x = read_be(r, 4)?;
        Ok((x as u32) as i32)
    }

    fn encode(v: &i32, out: &mut Vec<u8>) -> (res: TransportResult<()>) {
        proof {
            lemma_pow256_values();
        }
        let u: u32 = #[verifier::truncate] (*v as u32);
        write_be(out, u as u64, 4);
        Ok(())
    }

    fn size(v: &i32) -> (res: TransportResult<Size>) {
        proof {
            lemma_be_bytes_len((*v as u32) as nat, 4);
        }
        Ok(Size::Constant(4))
    }

    proof fn roundtrip(m: i32, rest: Seq<u8>) {
        lemma_pow256_values();
        lemma_be_bytes_len((m as u32) as nat, 4);
        lemma_be_roundtrip((m as u32) as nat, 4);
        assert((be_bytes((m as u32) as nat, 4) + rest).take(4) =~= be_bytes(
            (m as u32) as nat,
            4,
        ));
        assert((m as u32) as i32 == m) by (bit_vector);
    }

    proof fn decode_bound(b: Seq<u8>) {
    }

    proof fn constant_law(m: i32) {
        lemma_be_bytes_len((m as u32) as nat, 4);
    }
}

impl PacketComponent for i64 {
    type Value = i64;

    open spec fn wire(m: i64) -> Seq<u8> {
        be_bytes((m as u64) as nat, 8)
    }

    open spec fn encodable(m: i64) -> bool {
        true
    }

    open spec fn spec_decode(b: Seq<u8>) -> Option<(int, i64)> {
        if b.len() >= 8 {
            Some((8, (be_value(b.take(8)) as u64) as i64))
        } else {
            None
        }
    }

    open spec fn constant_size() -> Option<usize> {
        Some(8usize)
    }

    fn decode(r: &mut ByteReader) -> (res: TransportResult<i64>) {
        proof {
            lemma_pow256_values();
            if old(r)@.len() >= 8 {
                lemma_be_value_bound(old(r)@.take(8));
            }
        }
        let x = read_be(r, 8)?;
        Ok((x as u64) as i64)
    }

    fn encode(v: &i64, out: &mut Vec<u8>) -> (res: TransportResult<()>) {
        proof {
            lemma_pow256_values();
        }
        let u: u64 = #[verifier::truncate] (*v as u64);
        write_be(out, u, 8);
        Ok(())
    }

    fn size(v: &i64) -> (res: TransportResult<Size>) {
        proof {
            lemma_be_bytes_len((*v as u64) as nat, 8);
        }
        Ok(Size::Constant(8))
    }

    proof fn roundtrip(m: i64, rest: Seq<u8>) {
        lemma_pow256_values();
        lemma_be_bytes_len((m as u64) as nat, 8);
        lemma_be_roundtrip((m as u64) as nat, 8);
        assert((be_bytes((m as u64) as nat, 8) + rest).take(8) =~= be_bytes(
            (m as u64) as nat,
            8,
        ));
        assert((m as u64) as i64 == m) by (bit_vector);
    }

    proof fn decode_bound(b: Seq<u8>) {
    }

    proof fn constant_law(m: i64) {
        lemma_be_bytes_len((m as u64) as nat, 8);
    }
}

/// The delegate that carries an `i32` in the variable-length encoding.
pub struct VarInt;

impl PacketComponent for VarInt {
    type Value = i32;

    open spec fn wire(m: i32) -> Seq<u8> {
        varnum::var_int_bytes(m)
    }

    open spec fn encodable(m: i32) -> bool {
        true
    }

    open spec fn spec_decode(b: Seq<u8>) -> Option<(int, i32)> {
        match varnum::var_decode(b, 5) {
            VarParsed::Value { v, len } => Some((len, varnum::var_int_value(v))),
            VarParsed::Eof => None,
            VarParsed::TooBig => None,
        }
    }

    open spec fn constant_size() -> Option<usize> {
        None
    }

    fn decode(r: &mut ByteReader) -> (res: TransportResult<i32>) {
        varnum::read_var_int(r)
    }

    fn encode(v: &i32, out: &mut Vec<u8>) -> (res: TransportResult<()>) {
        varnum::write_var_int(out, *v);
        Ok(())
    }

    fn size(v: &i32) -> (res: TransportResult<Size>) {
        Ok(Size::Dynamic(varnum::size_var_int(*v)))
    }

    proof fn roundtrip(m: i32, rest: Seq<u8>) {
        varnum::lemma_var_int_roundtrip(m, rest);
    }

    proof fn constant_law(m: i32) {
    }

    proof fn decode_bound(b: Seq<u8>) {
        varnum::lemma_var_decode_len_bound(b, 5);
    }
}

/// The delegate that carries an `i64` in the variable-length encoding.
pub struct VarLong;

impl PacketComponent for VarLong {
    type Value = i64;

    open spec fn wire(m: i64) -> Seq<u8> {
        varnum::var_long_bytes(m)
    }

    open spec fn encodable(m: i64) -> bool {
        true
    }

    open spec fn spec_decode(b: Seq<u8>) -> Option<(int, i64)> {
        match varnum::var_decode(b, 10) {
            VarParsed::Value { v, len } => Some((len, varnum::var_long_value(v))),
            VarParsed::Eof => None,
            VarParsed::TooBig => None,
        }
    }

    open spec fn constant_size() -> Option<usize> {
        None
    }

    fn decode(r: &mut ByteReader) -> (res: TransportResult<i64>) {
        varnum::read_var_long(r)
    }

    fn encode(v: &i64, out: &mut Vec<u8>) -> (res: TransportResult<()>) {
        varnum::write_var_long(out, *v);
        Ok(())
    }

    fn size(v: &i64) -> (res: TransportResult<Size>) {
        Ok(Size::Dynamic(varnum::size_var_long(*v)))
    }

    proof fn roundtrip(m: i64, rest: Seq<u8>) {
        varnum::lemma_var_long_roundtrip(m, rest);
    }

    proof fn constant_law(m: i64) {
    }

    proof fn decode_bound(b: Seq<u8>) {
        varnum::lemma_var_decode_len_bound(b, 10);
    }
}

} // verus!
