//! The component codec model: a capability interface that a type implements
//! to declare how its values are encoded to bytes, decoded from bytes, and
//! how large their serialized form is.

use vstd::prelude::*;

use crate::error::TransportResult;
use crate::reader::ByteReader;

pub mod option;
pub mod primitive;
pub mod string;
pub mod vec;

verus! {

/// A component's serialized length. `Constant(n)` promises that every value
/// of the component's type serializes to exactly `n` bytes; `Dynamic(n)` says
/// only that this particular value serializes to `n` bytes.
#[derive(Clone, Copy, Debug, Eq, PartialEq, Structural)]
pub enum Size {
    /// This value serializes to `n` bytes; other values may differ.
    Dynamic(usize),
    /// Every value of this component's type serializes to exactly `n` bytes.
    Constant(usize),
}

impl Size {
    /// The byte count a size describes.
    pub open spec fn byte_len(self) -> usize {
        match self {
            Size::Dynamic(n) => n,
            Size::Constant(n) => n,
        }
    }

    /// Whether the size is statically known for the whole type.
    pub open spec fn is_constant(self) -> bool {
        self matches Size::Constant(_)
    }

    /// Adds two sizes: the sum is `Constant` only when both operands are.
    pub fn plus(self, rhs: Size) -> (r: Size)
        requires
            self.byte_len() + rhs.byte_len() <= usize::MAX,
        ensures
            r.byte_len() == self.byte_len() + rhs.byte_len(),
            r.is_constant() <==> self.is_constant() && rhs.is_constant(),
    {
        match (self, rhs) {
            (Size::Constant(x), Size::Constant(y)) => Size::Constant(x + y),
            (Size::Dynamic(x), Size::Dynamic(y)) => Size::Dynamic(x + y),
            (Size::Dynamic(x), Size::Constant(y)) => Size::Dynamic(x + y),
            (Size::Constant(x), Size::Dynamic(y)) => Size::Dynamic(x + y),
        }
    }
}

/// A type paired with its encode / decode / size behaviour. The contract ties
/// all three operations to one specification: `wire` gives the exact byte
/// image of a value, `spec_decode` the exact result of parsing a byte
/// sequence, and `constant_size` whether every value shares one length.
pub trait PacketComponent {
    /// The value type this component reads and writes.
    type Value: DeepView;

    /// The exact bytes that encode a value.
    spec fn wire(m: <Self::Value as DeepView>::V) -> Seq<u8>;

    /// The values the encoder accepts. Encoding fails on all others.
    spec fn encodable(m: <Self::Value as DeepView>::V) -> bool;

    /// The exact result of parsing a byte sequence: the consumed byte count
    /// and the decoded value, or `None` when the bytes are rejected.
    spec fn spec_decode(b: Seq<u8>) -> Option<(int, <Self::Value as DeepView>::V)>;

    /// The one length every value shares, if the component is constant-sized.
    spec fn constant_size() -> Option<usize>;

    /// Decodes one value from the reader, consuming exactly the bytes that
    /// `spec_decode` accounts for.
    fn decode(r: &mut ByteReader) -> (res: TransportResult<Self::Value>)
        requires
            old(r).wf(),
        ensures
            final(r).wf(),
            res matches Ok(v) ==> (Self::spec_decode(old(r)@) matches Some((n, m)) && m
                == v.deep_view() && final(r)@ == old(r)@.skip(n)),
            res is Err ==> Self::spec_decode(old(r)@) is None,
    ;

    /// Appends the encoding of a value to `out`. Fails exactly on values that
    /// are not `encodable`.
    fn encode(v: &Self::Value, out: &mut Vec<u8>) -> (res: TransportResult<()>)
        ensures
            res is Ok <==> Self::encodable(v.deep_view()),
            res is Ok ==> final(out)@ == old(out)@ + Self::wire(v.deep_view()),
    ;

    /// The serialized length of a value: exactly the byte count that `encode`
    /// produces, marked `Constant` exactly when the whole type is
    /// constant-sized. It may fail only on values that the encoder rejects,
    /// or whose byte count does not fit the machine's word.
    fn size(v: &Self::Value) -> (res: TransportResult<Size>)
        ensures
            res matches Ok(s) ==> Self::encodable(v.deep_view()) && s.byte_len() == Self::wire(
                v.deep_view(),
            ).len() && (s.is_constant() <==> Self::constant_size() is Some),
            !Self::encodable(v.deep_view()) ==> res is Err,
            Self::encodable(v.deep_view()) && Self::wire(v.deep_view()).len() <= usize::MAX
                ==> res is Ok,
    ;

    /// Decoding an encoded value, whatever bytes follow it, yields the value
    /// back and consumes exactly its encoding.
    proof fn roundtrip(m: <Self::Value as DeepView>::V, rest: Seq<u8>)
        requires
            Self::encodable(m),
        ensures
            Self::spec_decode(Self::wire(m) + rest) == Some((Self::wire(m).len() as int, m)),
    ;

    /// A parse never claims to consume more bytes than it was given.
    proof fn decode_bound(b: Seq<u8>)
        ensures
            Self::spec_decode(b) matches Some((n, m)) ==> 0 <= n <= b.len(),
    ;

    /// A constant-sized component encodes every valid value to the same
    /// length.
    proof fn constant_law(m: <Self::Value as DeepView>::V)
        requires
            Self::encodable(m),
        ensures
            Self::constant_size() matches Some(n) ==> Self::wire(m).len() == n,
    ;
}

} // verus!
