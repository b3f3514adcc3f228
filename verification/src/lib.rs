//! Binary Canonical Serialization (BCS): a deterministic, non-self-describing
//! binary format for consensus-critical contexts. This crate verifies the
//! encoder: primitive byte emission, ULEB128, depth accounting, and map
//! canonicalization, each against a mathematical model of the format.
use vstd::prelude::*;

pub mod canon;
pub mod error;
pub mod format;
pub mod laws;
pub mod ser;
pub mod value;

pub use ser::{
    is_human_readable, serialize_into, serialize_into_with_limit, serialized_size,
    serialized_size_with_limit, to_bytes, to_bytes_with_limit, MapSerializer, Serializer,
};
pub use error::Error;
pub use value::Value;

verus! {

/// Maximal length allowed for any encoded sequence: the largest value that a
/// ULEB128-encoded 32-bit length can carry without decoder ambiguity.
pub const MAX_SEQUENCE_LENGTH: usize = 0x7fff_ffff;

/// Default bound on the nesting of named containers.
pub const MAX_CONTAINER_DEPTH: usize = 500;

} // verus!
