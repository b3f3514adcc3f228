//! Error taxonomy of the encoder. Errors are plain values; every failing
//! operation reports exactly one of these and aborts the current encode.
use vstd::prelude::*;

verus! {

/// Everything that can go wrong while encoding.
#[derive(Clone, Copy, Debug, PartialEq, Eq, Structural)]
pub enum Error {
    /// The value kind has no canonical form (floating point, single code
    /// point), or a depth limit above the default was requested.
    NotSupported,
    /// A sequence-length prefix would exceed `MAX_SEQUENCE_LENGTH`; carries
    /// the offending length.
    ExceededMaxLen(usize),
    /// Entering one more named container would exhaust the depth budget.
    ExceededContainerDepthLimit,
    /// A sequence was begun without a known length.
    MissingLen,
    /// A map value was presented while no key was pending.
    ExpectedMapKey,
    /// A map key was presented twice in a row, or the map ended with a
    /// pending key.
    ExpectedMapValue,
}

} // verus!
