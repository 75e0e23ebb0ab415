pub mod constants;
pub mod decoder;
pub mod encoder;
pub mod error;
pub mod model;
mod numeric;
pub mod objects;
pub mod roundtrip;

pub use self::decoder::Decoder;
pub use self::encoder::Encoder;
pub use self::error::Error;
pub use self::objects::{Float, Int, Object};

use vstd::prelude::*;

use self::decoder::dec_step;
use self::model::{dec, enc, rval_of, rvals_of, RVal};

verus! {

/// Encodes a sequence of values under the wire convention the remote peer
/// expects: the values are wrapped in a list, which is itself the sole
/// element of an outer list.
pub fn encode(t: Vec<Object>) -> (r: Result<Vec<u8>, Error>)
    ensures
        r is Ok,
        r.unwrap()@ == enc(RVal::List(seq![RVal::List(rvals_of(t@))])),
{
    let encoder = Encoder::new();
    let inner = Object::List(t);
    let ghost gi = inner;
    let mut wrapper: Vec<Object> = Vec::new();
    wrapper.push(inner);
    let ghost w = wrapper@;
    let out = encoder.into_bytes(Object::List(wrapper));
    proof {
        assert(w[0] == gi);
        assert(rval_of(gi) == RVal::List(rvals_of(t@)));
        assert(w.drop_first() =~= Seq::<Object>::empty());
        assert(rvals_of(w.drop_first()) == Seq::<RVal>::empty());
        assert(rvals_of(w) == seq![rval_of(w[0])] + rvals_of(w.drop_first()));
        assert(rvals_of(w) =~= seq![RVal::List(rvals_of(t@))]);
        assert(out.unwrap()@ =~= enc(RVal::List(seq![RVal::List(rvals_of(t@))])));
    }
    out
}

/// Decodes exactly one value from the start of the buffer; trailing bytes
/// after the first complete value are ignored. Yields None on any
/// malformed or truncated input.
pub fn decode(data: Vec<u8>) -> (r: Option<Object>)
    ensures
        match dec(data@) {
            Some(p) => r is Some && rval_of(r.unwrap()) == p.0,
            None => r is None,
        },
{
    let mut decoder = Decoder::new(data);
    decoder.decode_next()
}

} // verus!
