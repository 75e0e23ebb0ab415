use vstd::prelude::*;

verus! {

/// An encoding failure. Packing any of the supported fixed-width values
/// into its big-endian byte form cannot actually fail, so these variants
/// are a defensive path rather than a reachable runtime condition.
#[derive(Clone, Copy, Debug, PartialEq, Eq)]
pub enum Error {
    InvalidInteger,
    SerializationError,
}

} // verus!
