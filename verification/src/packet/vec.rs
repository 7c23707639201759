//! Sequence components: raw byte runs, count-prefixed byte vectors,
//! count-prefixed homogeneous sequences, and their length-capped variants.

use vstd::prelude::*;

use crate::error::ErrorType;
use crate::error::TransportError;
use crate::error::TransportResult;
use crate::packet::string::append_bytes;
use crate::packet::PacketComponent;
use crate::packet::Size;
use crate::reader::ByteReader;
use crate::varnum;
use crate::varnum::VarParsed;

verus! {

/// The concatenated wire images of a sequence of values.
pub open spec fn seq_wire<T: PacketComponent>(ms: Seq<<T::Value as DeepView>::V>) -> Seq<u8>
    decreases ms.len(),
{
    if ms.len() == 0 {
        Seq::empty()
    } else {
        T::wire(ms[0]) + seq_wire::<T>(ms.skip(1))
    }
}

/// Whether every value of a sequence is encodable.
pub open spec fn seq_encodable<T: PacketComponent>(ms: Seq<<T::Value as DeepView>::V>) -> bool {
    forall|i: int| 0 <= i < ms.len() ==> T::encodable(#[trigger] ms[i])
}

/// The exact parse of `count` consecutive values.
pub open spec fn seq_spec_decode<T: PacketComponent>(b: Seq<u8>, count: int) -> Option<
    (int, Seq<<T::Value as DeepView>::V>),
>
    decreases count,
{
    if count <= 0 {
        Some((0, Seq::empty()))
    } else {
        match T::spec_decode(b) {
            Some((n, m)) => match seq_spec_decode::<T>(b.skip(n), count - 1) {
                Some((n2, ms)) => Some((n + n2, seq![m] + ms)),
                None => None,
            },
            None => None,
        }
    }
}

/// Appending one value to a sequence appends its wire image.
pub proof fn lemma_seq_wire_push<T: PacketComponent>(
    ms: Seq<<T::Value as DeepView>::V>,
    m: <T::Value as DeepView>::V,
)
    ensures
        seq_wire::<T>(ms.push(m)) == seq_wire::<T>(ms) + T::wire(m),
    decreases ms.len(),
{
    if ms.len() == 0 {
        assert(ms.push(m)[0] == m);
        assert(ms.push(m).skip(1) =~= Seq::<<T::Value as DeepView>::V>::empty());
        assert(seq_wire::<T>(ms.push(m).skip(1)) =~= Seq::<u8>::empty());
        assert(seq_wire::<T>(ms) =~= Seq::<u8>::empty());
        assert(seq_wire::<T>(ms.push(m)) =~= seq_wire::<T>(ms) + T::wire(m));
    } else {
        assert(ms.push(m).skip(1) =~= ms.skip(1).push(m));
        lemma_seq_wire_push::<T>(ms.skip(1), m);
        assert(ms.push(m)[0] == ms[0]);
        assert(T::wire(ms[0]) + (seq_wire::<T>(ms.skip(1)) + T::wire(m)) =~= (T::wire(ms[0])
            + seq_wire::<T>(ms.skip(1))) + T::wire(m));
    }
}

/// Parsing the concatenated images of `count` encodable values, whatever
/// bytes follow them, yields the values back.
pub proof fn lemma_seq_roundtrip<T: PacketComponent>(
    ms: Seq<<T::Value as DeepView>::V>,
    rest: Seq<u8>,
)
    requires
        seq_encodable::<T>(ms),
    ensures
        seq_spec_decode::<T>(seq_wire::<T>(ms) + rest, ms.len() as int) == Some(
            (seq_wire::<T>(ms).len() as int, ms),
        ),
    decreases ms.len(),
{
    if ms.len() == 0 {
        assert(seq_wire::<T>(ms) + rest =~= rest);
    } else {
        let b = seq_wire::<T>(ms) + rest;
        let head_wire = T::wire(ms[0]);
        let tail_wire = seq_wire::<T>(ms.skip(1));
        assert(b =~= head_wire + (tail_wire + rest));
        T::roundtrip(ms[0], tail_wire + rest);
        assert(b.skip(head_wire.len() as int) =~= tail_wire + rest);
        lemma_seq_roundtrip::<T>(ms.skip(1), rest);
        assert(seq![ms[0]] + ms.skip(1) =~= ms);
    }
}

/// A sequence parse never claims more bytes than it was given.
pub proof fn lemma_seq_decode_bound<T: PacketComponent>(b: Seq<u8>, count: int)
    ensures
        seq_spec_decode::<T>(b, count) matches Some((n, ms)) ==> 0 <= n <= b.len() && ms.len() == (
        if count >= 0 {
            count
        } else {
            0
        }),
    decreases count,
{
    if count > 0 {
        T::decode_bound(b);
        if let Some((n, m)) = T::spec_decode(b) {
            lemma_seq_decode_bound::<T>(b.skip(n), count - 1);
        }
    }
}

/// Decodes `count` consecutive values.
fn decode_seq<T: PacketComponent>(r: &mut ByteReader, count: i32) -> (res: TransportResult<
    Vec<T::Value>,
>)
    requires
        old(r).wf(),
        count >= 0,
    ensures
        final(r).wf(),
        res matches Ok(v) ==> (seq_spec_decode::<T>(old(r)@, count as int) matches Some((n, ms))
            && ms == v.deep_view() && final(r)@ == old(r)@.skip(n)),
        res is Err ==> seq_spec_decode::<T>(old(r)@, count as int) is None,
{
    let ghost b0 = old(r)@;
    proof {
        assert(b0.skip(0) =~= b0);
    }
    let mut out: Vec<T::Value> = Vec::new();
    let mut i: i32 = 0;
    while i < count
        invariant
            b0 == old(r)@,
            r.wf(),
            0 <= i <= count,
            r@.len() <= b0.len(),
            r@ == b0.skip(b0.len() - r@.len()),
            out.deep_view().len() == i as int,
            seq_spec_decode::<T>(b0, count as int) == (match seq_spec_decode::<T>(
                r@,
                count - i as int,
            ) {
                Some((n2, ms2)) => Some(
                    ((b0.len() - r@.len()) + n2, out.deep_view() + ms2),
                ),
                None => None::<(int, Seq<<T::Value as DeepView>::V>)>,
            }),
        decreases count - i,
    {
        let ghost pre = r@;
        let ghost dv = out.deep_view();
        let v = match T::decode(r) {
            Ok(v) => v,
            Err(e) => {
                proof {
                    assert(T::spec_decode(pre) is None);
                    assert(seq_spec_decode::<T>(pre, count - i as int) is None);
                }
                return Err(e);
            },
        };
        proof {
            T::decode_bound(pre);
        }
        out.push(v);
        proof {
            if let Some((n, m)) = T::spec_decode(pre) {
                assert(r@ == pre.skip(n));
                assert(b0.skip(b0.len() - pre.len()).skip(n) =~= b0.skip(
                    b0.len() - pre.len() + n,
                ));
                assert(out.deep_view() =~= dv.push(m));
                if let Some((n2, ms2)) = seq_spec_decode::<T>(r@, count - i as int - 1) {
                    assert(dv.push(m) + ms2 =~= dv + (seq![m] + ms2));
                }
            }
        }
        i = i + 1;
    }
    proof {
        if let Some((n2, ms2)) = seq_spec_decode::<T>(r@, 0) {
            assert(out.deep_view() + ms2 =~= out.deep_view());
        }
    }
    Ok(out)
}

/// Encodes every value of a slice-backed vector in order.
fn encode_seq<T: PacketComponent>(vs: &Vec<T::Value>, out: &mut Vec<u8>) -> (res: TransportResult<
    (),
>)
    ensures
        res is Ok <==> seq_encodable::<T>(vs.deep_view()),
        res is Ok ==> final(out)@ == old(out)@ + seq_wire::<T>(vs.deep_view()),
{
    let n = vs.len();
    let mut i: usize = 0;
    while i < n
        invariant
            i <= n,
            n == vs.deep_view().len(),
            forall|j: int| 0 <= j < i ==> T::encodable(#[trigger] vs.deep_view()[j]),
            out@ =~= old(out)@ + seq_wire::<T>(vs.deep_view().take(i as int)),
        decreases n - i,
    {
        match T::encode(&vs[i], out) {
            Ok(()) => {},
            Err(e) => {
                proof {
                    assert(vs[i as int].deep_view() == vs.deep_view()[i as int]);
                }
                return Err(e);
            },
        }
        proof {
            assert(vs.deep_view().take(i as int + 1) =~= vs.deep_view().take(i as int).push(
                vs.deep_view()[i as int],
            ));
            lemma_seq_wire_push::<T>(vs.deep_view().take(i as int), vs.deep_view()[i as int]);
            assert(vs[i as int].deep_view() == vs.deep_view()[i as int]);
        }
        i = i + 1;
    }
    proof {
        assert(vs.deep_view().take(n as int) =~= vs.deep_view());
    }
    Ok(())
}

/// Sums the sizes of every value of a vector, checking for overflow.
fn size_seq<T: PacketComponent>(vs: &Vec<T::Value>) -> (res: TransportResult<usize>)
    ensures
        res matches Ok(n) ==> seq_encodable::<T>(vs.deep_view()) && n == seq_wire::<T>(
            vs.deep_view(),
        ).len(),
        !seq_encodable::<T>(vs.deep_view()) ==> res is Err,
        seq_encodable::<T>(vs.deep_view()) && seq_wire::<T>(vs.deep_view()).len() <= usize::MAX
            ==> res is Ok,
{
    let n = vs.len();
    let mut i: usize = 0;
    let mut total: usize = 0;
    while i < n
        invariant
            i <= n,
            n == vs.deep_view().len(),
            forall|j: int| 0 <= j < i ==> T::encodable(#[trigger] vs.deep_view()[j]),
            total == seq_wire::<T>(vs.deep_view().take(i as int)).len(),
        decreases n - i,
    {
        let s = match T::size(&vs[i]) {
            Ok(s) => s,
            Err(e) => {
                proof {
                    if T::encodable(vs.deep_view()[i as int]) {
                        assert(vs.deep_view().take(i as int + 1) =~= vs.deep_view().take(
                            i as int,
                        ).push(vs.deep_view()[i as int]));
                        lemma_seq_wire_push::<T>(
                            vs.deep_view().take(i as int),
                            vs.deep_view()[i as int],
                        );
                        lemma_seq_wire_len_ge::<T>(vs.deep_view(), i as int + 1);
                    }
                }
                return Err(e);
            },
        };
        let step = match s {
            Size::Dynamic(x) => x,
            Size::Constant(x) => x,
        };
        let new_total = match total.checked_add(step) {
            Some(t) => t,
            None => {
                proof {
                    assert(vs.deep_view().take(i as int + 1) =~= vs.deep_view().take(
                        i as int,
                    ).push(vs.deep_view()[i as int]));
                    lemma_seq_wire_push::<T>(
                        vs.deep_view().take(i as int),
                        vs.deep_view()[i as int],
                    );
                    lemma_seq_wire_len_ge::<T>(vs.deep_view(), i as int + 1);
                }
                return Err(TransportError::error(ErrorType::NumericOverflow));
            },
        };
        proof {
            assert(vs.deep_view().take(i as int + 1) =~= vs.deep_view().take(i as int).push(
                vs.deep_view()[i as int],
            ));
            lemma_seq_wire_push::<T>(vs.deep_view().take(i as int), vs.deep_view()[i as int]);
        }
        total = new_total;
        i = i + 1;
    }
    proof {
        assert(vs.deep_view().take(n as int) =~= vs.deep_view());
    }
    Ok(total)
}

/// A prefix of a sequence never has a longer wire image than the whole.
proof fn lemma_seq_wire_len_ge<T: PacketComponent>(ms: Seq<<T::Value as DeepView>::V>, i: int)
    requires
        0 <= i <= ms.len(),
    ensures
        seq_wire::<T>(ms).len() >= seq_wire::<T>(ms.take(i)).len(),
    decreases ms.len(),
{
    if i == ms.len() {
        assert(ms.take(i) =~= ms);
    } else if ms.len() > 0 {
        if i == 0 {
            assert(seq_wire::<T>(ms.take(0)) =~= Seq::empty());
        } else {
            assert(ms.skip(1).take(i - 1) =~= ms.take(i).skip(1));
            lemma_seq_wire_len_ge::<T>(ms.skip(1), i - 1);
            assert(ms.take(i)[0] == ms[0]);
        }
    }
}

/// A component that drains every remaining byte of the source on decode and
/// writes its bytes unchanged on encode.
pub struct ByteDrain;

impl ByteDrain {
    /// Decodes by taking every remaining byte.
    pub fn decode(r: &mut ByteReader) -> (res: Vec<u8>)
        requires
            old(r).wf(),
        ensures
            final(r).wf(),
            res@ == old(r)@,
            final(r)@ == Seq::<u8>::empty(),
    {
        r.read_to_end()
    }

    /// Encodes by appending the bytes unchanged.
    pub fn encode(v: &Vec<u8>, out: &mut Vec<u8>)
        ensures
            final(out)@ == old(out)@ + v@,
    {
        append_bytes(out, v)
    }

    /// The serialized length: exactly the byte count itself.
    pub fn size(v: &Vec<u8>) -> (res: Size)
        ensures
            res == Size::Dynamic(v@.len() as usize),
    {
        Size::Dynamic(v.len())
    }
}

/// A run of exactly `N` raw bytes, with no count prefix.
pub struct SliceU8<const N: usize>;

impl<const N: usize> PacketComponent for SliceU8<N> {
    type Value = Vec<u8>;

    open spec fn wire(m: Seq<u8>) -> Seq<u8> {
        m
    }

    open spec fn encodable(m: Seq<u8>) -> bool {
        m.len() == N
    }

    open spec fn spec_decode(b: Seq<u8>) -> Option<(int, Seq<u8>)> {
        if b.len() >= N {
            Some((N as int, b.take(N as int)))
        } else {
            None
        }
    }

    open spec fn constant_size() -> Option<usize> {
        Some(N)
    }

    fn decode(r: &mut ByteReader) -> (res: TransportResult<Vec<u8>>) {
        match r.read_exact(N) {
            Ok(v) => {
                proof {
                    assert(v.deep_view() =~= v@);
                }
                Ok(v)
            },
            Err(e) => Err(e),
        }
    }

    fn encode(v: &Vec<u8>, out: &mut Vec<u8>) -> (res: TransportResult<()>) {
        if v.len() != N {
            return Err(TransportError::error(ErrorType::BoundExceeded));
        }
        append_bytes(out, v);
        Ok(())
    }

    fn size(v: &Vec<u8>) -> (res: TransportResult<Size>) {
        if v.len() != N {
            return Err(TransportError::error(ErrorType::BoundExceeded));
        }
        Ok(Size::Constant(N))
    }

    proof fn roundtrip(m: Seq<u8>, rest: Seq<u8>) {
        assert((m + rest).take(N as int) =~= m);
    }

    proof fn decode_bound(b: Seq<u8>) {
    }

    proof fn constant_law(m: Seq<u8>) {
    }
}

/// A count-prefixed run of raw bytes.
pub struct VecU8;

impl PacketComponent for VecU8 {
    type Value = Vec<u8>;

    open spec fn wire(m: Seq<u8>) -> Seq<u8> {
        varnum::var_int_bytes(m.len() as i32) + m
    }

    open spec fn encodable(m: Seq<u8>) -> bool {
        m.len() <= 0x7fff_ffff
    }

    open spec fn spec_decode(b: Seq<u8>) -> Option<(int, Seq<u8>)> {
        match varnum::var_decode(b, 5) {
            VarParsed::Value { v, len } => {
                let declared = varnum::var_int_value(v);
                if declared < 0 || b.skip(len).len() < declared {
                    None
                } else {
                    Some((len + declared, b.skip(len).take(declared as int)))
                }
            },
            VarParsed::Eof => None,
            VarParsed::TooBig => None,
        }
    }

    open spec fn constant_size() -> Option<usize> {
        None
    }

    fn decode(r: &mut ByteReader) -> (res: TransportResult<Vec<u8>>)
        ensures
            match varnum::var_decode(old(r)@, 5) {
                VarParsed::Value { v, len } => {
                    let declared = varnum::var_int_value(v);
                    &&& (declared < 0 ==> (res matches Err(e) && e.error_type
                        == ErrorType::NumericOverflow))
                    &&& (0 <= declared && old(r)@.skip(len).len() < declared ==> (res matches Err(
                        e,
                    ) && e.error_type == ErrorType::EOF))
                },
                VarParsed::Eof => res matches Err(e) && e.error_type == ErrorType::EOF,
                VarParsed::TooBig => res matches Err(e) && e.error_type
                    == ErrorType::VarNumTooLarge,
            },
    {
        let declared = varnum::read_var_int(r)?;
        if declared < 0 {
            return Err(TransportError::error(ErrorType::NumericOverflow));
        }
        let bytes = r.read_exact(declared as usize)?;
        proof {
            assert(bytes.deep_view() =~= bytes@);
            if let VarParsed::Value { v, len } = varnum::var_decode(old(r)@, 5) {
                varnum::lemma_var_decode_len_bound(old(r)@, 5);
                assert(old(r)@.skip(len).skip(declared as int) =~= old(r)@.skip(
                    len + declared as int,
                ));
            }
        }
        Ok(bytes)
    }

    fn encode(v: &Vec<u8>, out: &mut Vec<u8>) -> (res: TransportResult<()>) {
        if v.len() > 0x7fff_ffff {
            return Err(TransportError::error(ErrorType::BoundExceeded));
        }
        varnum::write_var_int(out, v.len() as i32);
        append_bytes(out, v);
        proof {
            assert(out@ =~= old(out)@ + Self::wire(v.deep_view()));
        }
        Ok(())
    }

    fn size(v: &Vec<u8>) -> (res: TransportResult<Size>) {
        if v.len() > 0x7fff_ffff {
            return Err(TransportError::error(ErrorType::BoundExceeded));
        }
        let prefix = varnum::size_var_int(v.len() as i32);
        match prefix.checked_add(v.len()) {
            Some(t) => Ok(Size::Dynamic(t)),
            None => Err(TransportError::error(ErrorType::NumericOverflow)),
        }
    }

    proof fn roundtrip(m: Seq<u8>, rest: Seq<u8>) {
        let declared = m.len() as i32;
        varnum::lemma_var_int_roundtrip(declared, m + rest);
        let b = Self::wire(m) + rest;
        assert(varnum::var_int_bytes(declared) + (m + rest) =~= b);
        if let VarParsed::Value { v, len } = varnum::var_decode(b, 5) {
            assert(b.skip(len) =~= m + rest);
            assert((m + rest).take(declared as int) =~= m);
        }
    }

    proof fn decode_bound(b: Seq<u8>) {
        varnum::lemma_var_decode_len_bound(b, 5);
    }

    proof fn constant_law(m: Seq<u8>) {
    }
}

/// The count-prefixed homogeneous sequence component: a value count as a
/// variable-length integer, then each value in order.
impl<T: PacketComponent> PacketComponent for Vec<T> {
    type Value = Vec<T::Value>;

    open spec fn wire(m: Seq<<T::Value as DeepView>::V>) -> Seq<u8> {
        varnum::var_int_bytes(m.len() as i32) + seq_wire::<T>(m)
    }

    open spec fn encodable(m: Seq<<T::Value as DeepView>::V>) -> bool {
        m.len() <= 0x7fff_ffff && seq_encodable::<T>(m)
    }

    open spec fn spec_decode(b: Seq<u8>) -> Option<(int, Seq<<T::Value as DeepView>::V>)> {
        match varnum::var_decode(b, 5) {
            VarParsed::Value { v, len } => {
                let declared = varnum::var_int_value(v);
                if declared < 0 {
                    None
                } else {
                    match seq_spec_decode::<T>(b.skip(len), declared as int) {
                        Some((n2, ms)) => Some((len + n2, ms)),
                        None => None,
                    }
                }
            },
            VarParsed::Eof => None,
            VarParsed::TooBig => None,
        }
    }

    open spec fn constant_size() -> Option<usize> {
        None
    }

    fn decode(r: &mut ByteReader) -> (res: TransportResult<Vec<T::Value>>)
        ensures
            match varnum::var_decode(old(r)@, 5) {
                VarParsed::Value { v, len } => varnum::var_int_value(v) < 0 ==> (res matches Err(e)
                    && e.error_type == ErrorType::NumericOverflow),
                VarParsed::Eof => res matches Err(e) && e.error_type == ErrorType::EOF,
                VarParsed::TooBig => res matches Err(e) && e.error_type
                    == ErrorType::VarNumTooLarge,
            },
    {
        let declared = varnum::read_var_int(r)?;
        if declared < 0 {
            return Err(TransportError::error(ErrorType::NumericOverflow));
        }
        let ghost mid = r@;
        let out = decode_seq::<T>(r, declared)?;
        proof {
            varnum::lemma_var_decode_len_bound(old(r)@, 5);
            lemma_seq_decode_bound::<T>(mid, declared as int);
            if let VarParsed::Value { v, len } = varnum::var_decode(old(r)@, 5) {
                if let Some((n2, ms)) = seq_spec_decode::<T>(mid, declared as int) {
                    assert(old(r)@.skip(len).skip(n2) =~= old(r)@.skip(len + n2));
                }
            }
        }
        Ok(out)
    }

    fn encode(v: &Vec<T::Value>, out: &mut Vec<u8>) -> (res: TransportResult<()>) {
        if v.len() > 0x7fff_ffff {
            return Err(TransportError::error(ErrorType::BoundExceeded));
        }
        varnum::write_var_int(out, v.len() as i32);
        let ghost mid = out@;
        match encode_seq::<T>(v, out) {
            Ok(()) => {
                proof {
                    assert(out@ =~= old(out)@ + Self::wire(v.deep_view()));
                }
                Ok(())
            },
            Err(e) => Err(e),
        }
    }

    fn size(v: &Vec<T::Value>) -> (res: TransportResult<Size>) {
        if v.len() > 0x7fff_ffff {
            return Err(TransportError::error(ErrorType::BoundExceeded));
        }
        let prefix = varnum::size_var_int(v.len() as i32);
        let body = size_seq::<T>(v)?;
        match prefix.checked_add(body) {
            Some(t) => Ok(Size::Dynamic(t)),
            None => Err(TransportError::error(ErrorType::NumericOverflow)),
        }
    }

    proof fn roundtrip(m: Seq<<T::Value as DeepView>::V>, rest: Seq<u8>) {
        let declared = m.len() as i32;
        let body = seq_wire::<T>(m);
        varnum::lemma_var_int_roundtrip(declared, body + rest);
        let b = Self::wire(m) + rest;
        assert(varnum::var_int_bytes(declared) + (body + rest) =~= b);
        if let VarParsed::Value { v, len } = varnum::var_decode(b, 5) {
            assert(b.skip(len) =~= body + rest);
            lemma_seq_roundtrip::<T>(m, rest);
        }
    }

    proof fn decode_bound(b: Seq<u8>) {
        varnum::lemma_var_decode_len_bound(b, 5);
        if let VarParsed::Value { v, len } = varnum::var_decode(b, 5) {
            let declared = varnum::var_int_value(v);
            if declared >= 0 {
                lemma_seq_decode_bound::<T>(b.skip(len), declared as int);
            }
        }
    }

    proof fn constant_law(m: Seq<<T::Value as DeepView>::V>) {
    }
}

/// A count-prefixed homogeneous sequence whose value count may not exceed
/// `N`. The count is checked before any value is read, so a hostile prefix
/// cannot force a large allocation.
pub struct LimitedVec<T, const N: usize> {
    _marker: core::marker::PhantomData<T>,
}

impl<T: PacketComponent, const N: usize> PacketComponent for LimitedVec<T, N> {
    type Value = Vec<T::Value>;

    open spec fn wire(m: Seq<<T::Value as DeepView>::V>) -> Seq<u8> {
        varnum::var_int_bytes(m.len() as i32) + seq_wire::<T>(m)
    }

    open spec fn encodable(m: Seq<<T::Value as DeepView>::V>) -> bool {
        m.len() <= N && m.len() <= 0x7fff_ffff && seq_encodable::<T>(m)
    }

    open spec fn spec_decode(b: Seq<u8>) -> Option<(int, Seq<<T::Value as DeepView>::V>)> {
        match varnum::var_decode(b, 5) {
            VarParsed::Value { v, len } => {
                let declared = varnum::var_int_value(v);
                if declared < 0 || declared > N {
                    None
                } else {
                    match seq_spec_decode::<T>(b.skip(len), declared as int) {
                        Some((n2, ms)) => Some((len + n2, ms)),
                        None => None,
                    }
                }
            },
            VarParsed::Eof => None,
            VarParsed::TooBig => None,
        }
    }

    open spec fn constant_size() -> Option<usize> {
        None
    }

    fn decode(r: &mut ByteReader) -> (res: TransportResult<Vec<T::Value>>)
        ensures
            match varnum::var_decode(old(r)@, 5) {
                VarParsed::Value { v, len } => {
                    let declared = varnum::var_int_value(v);
                    &&& (declared < 0 ==> (res matches Err(e) && e.error_type
                        == ErrorType::NumericOverflow))
                    &&& (declared > N ==> (res matches Err(e) && e.error_type
                        == ErrorType::BoundExceeded))
                },
                VarParsed::Eof => res matches Err(e) && e.error_type == ErrorType::EOF,
                VarParsed::TooBig => res matches Err(e) && e.error_type
                    == ErrorType::VarNumTooLarge,
            },
    {
        let declared = varnum::read_var_int(r)?;
        if declared < 0 {
            return Err(TransportError::error(ErrorType::NumericOverflow));
        }
        if N < 0x7fff_ffff && declared > N as i32 {
            return Err(
                TransportError::measured(declared as u64, N as u64, ErrorType::BoundExceeded),
            );
        }
        let ghost mid = r@;
        let out = decode_seq::<T>(r, declared)?;
        proof {
            varnum::lemma_var_decode_len_bound(old(r)@, 5);
            lemma_seq_decode_bound::<T>(mid, declared as int);
            if let VarParsed::Value { v, len } = varnum::var_decode(old(r)@, 5) {
                if let Some((n2, ms)) = seq_spec_decode::<T>(mid, declared as int) {
                    assert(old(r)@.skip(len).skip(n2) =~= old(r)@.skip(len + n2));
                }
            }
        }
        Ok(out)
    }

    fn encode(v: &Vec<T::Value>, out: &mut Vec<u8>) -> (res: TransportResult<()>) {
        if v.len() > N || v.len() > 0x7fff_ffff {
            return Err(TransportError::error(ErrorType::BoundExceeded));
        }
        varnum::write_var_int(out, v.len() as i32);
        match encode_seq::<T>(v, out) {
            Ok(()) => {
                proof {
                    assert(out@ =~= old(out)@ + Self::wire(v.deep_view()));
                }
                Ok(())
            },
            Err(e) => Err(e),
        }
    }

    fn size(v: &Vec<T::Value>) -> (res: TransportResult<Size>) {
        if v.len() > N || v.len() > 0x7fff_ffff {
            return Err(TransportError::error(ErrorType::BoundExceeded));
        }
        let prefix = varnum::size_var_int(v.len() as i32);
        let body = size_seq::<T>(v)?;
        match prefix.checked_add(body) {
            Some(t) => Ok(Size::Dynamic(t)),
            None => Err(TransportError::error(ErrorType::NumericOverflow)),
        }
    }

    proof fn roundtrip(m: Seq<<T::Value as DeepView>::V>, rest: Seq<u8>) {
        let declared = m.len() as i32;
        let body = seq_wire::<T>(m);
        varnum::lemma_var_int_roundtrip(declared, body + rest);
        let b = Self::wire(m) + rest;
        assert(varnum::var_int_bytes(declared) + (body + rest) =~= b);
        if let VarParsed::Value { v, len } = varnum::var_decode(b, 5) {
            assert(b.skip(len) =~= body + rest);
            lemma_seq_roundtrip::<T>(m, rest);
        }
    }

    proof fn decode_bound(b: Seq<u8>) {
        varnum::lemma_var_decode_len_bound(b, 5);
        if let VarParsed::Value { v, len } = varnum::var_decode(b, 5) {
            let declared = varnum::var_int_value(v);
            if 0 <= declared <= N {
                lemma_seq_decode_bound::<T>(b.skip(len), declared as int);
            }
        }
    }

    proof fn constant_law(m: Seq<<T::Value as DeepView>::V>) {
    }
}

} // verus!
