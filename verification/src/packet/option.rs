//! The optional-value component: one presence byte, then the payload when it
//! is present. An absent value is exactly one byte.

use vstd::prelude::*;

use crate::error::TransportError;
use crate::error::TransportResult;
use crate::packet::PacketComponent;
use crate::packet::Size;
use crate::reader::ByteReader;

verus! {

/// The delegate that carries an optional value of the component `T`.
pub struct Maybe<T> {
    _marker: core::marker::PhantomData<T>,
}

impl<T: PacketComponent> PacketComponent for Maybe<T> {
    type Value = Option<T::Value>;

    open spec fn wire(m: Option<<T::Value as DeepView>::V>) -> Seq<u8> {
        match m {
            Some(inner) => seq![1u8] + T::wire(inner),
            None => seq![0u8],
        }
    }

    open spec fn encodable(m: Option<<T::Value as DeepView>::V>) -> bool {
        match m {
            Some(inner) => T::encodable(inner),
            None => true,
        }
    }

    open spec fn spec_decode(b: Seq<u8>) -> Option<(int, Option<<T::Value as DeepView>::V>)> {
        if b.len() == 0 {
            None
        } else if b[0] == 0 {
            Some((1, None))
        } else {
            match T::spec_decode(b.skip(1)) {
                Some((n, inner)) => Some((1 + n, Some(inner))),
                None => None,
            }
        }
    }

    open spec fn constant_size() -> Option<usize> {
        None
    }

    fn decode(r: &mut ByteReader) -> (res: TransportResult<Option<T::Value>>) {
        let present = match r.read_u8() {
            Ok(b) => b,
            Err(e) => {
                return Err(e);
            },
        };
        if present == 0 {
            return Ok(None);
        }
        match T::decode(r) {
            Ok(v) => {
                proof {
                    T::decode_bound(old(r)@.skip(1));
                    if let Some((n, inner)) = T::spec_decode(old(r)@.skip(1)) {
                        assert(old(r)@.skip(1).skip(n) =~= old(r)@.skip(1 + n));
                    }
                }
                Ok(Some(v))
            },
            Err(e) => Err(e),
        }
    }

    fn encode(v: &Option<T::Value>, out: &mut Vec<u8>) -> (res: TransportResult<()>) {
        match v {
            None => {
                out.push(0);
                proof {
                    assert(out@ =~= old(out)@ + Self::wire(v.deep_view()));
                }
                Ok(())
            },
            Some(inner) => {
                let ghost mid = out@;
                out.push(1);
                match T::encode(inner, out) {
                    Ok(()) => {
                        proof {
                            assert(out@ =~= old(out)@ + Self::wire(v.deep_view()));
                        }
                        Ok(())
                    },
                    Err(e) => Err(e),
                }
            },
        }
    }

    fn size(v: &Option<T::Value>) -> (res: TransportResult<Size>) {
        match v {
            None => Ok(Size::Dynamic(1)),
            Some(inner) => {
                let s = match T::size(inner) {
                    Ok(s) => s,
                    Err(e) => {
                        return Err(e);
                    },
                };
                let inner_len = match s {
                    Size::Dynamic(n) => n,
                    Size::Constant(n) => n,
                };
                if inner_len == usize::MAX {
                    return Err(TransportError::error(crate::error::ErrorType::NumericOverflow));
                }
                Ok(Size::Dynamic(1 + inner_len))
            },
        }
    }

    proof fn roundtrip(m: Option<<T::Value as DeepView>::V>, rest: Seq<u8>) {
        match m {
            None => {
                assert(Self::wire(m) + rest =~= seq![0u8] + rest);
                assert((seq![0u8] + rest)[0] == 0);
            },
            Some(inner) => {
                let b = Self::wire(m) + rest;
                assert(b[0] == 1);
                T::roundtrip(inner, rest);
                assert(b.skip(1) =~= T::wire(inner) + rest);
            },
        }
    }

    proof fn decode_bound(b: Seq<u8>) {
        if b.len() > 0 && b[0] != 0 {
            T::decode_bound(b.skip(1));
        }
    }

    proof fn constant_law(m: Option<<T::Value as DeepView>::V>) {
    }
}

} // verus!
