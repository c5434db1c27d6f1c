//! NibblePack: a compact compression codec for groups of eight `u64` values.
//!
//! The codec strips the nibbles (4-bit units) that are zero in every nonzero
//! input of a group, packs the remaining nibbles bit-adjacent into a
//! little-endian byte stream, and layers three stream encodings on top of the
//! raw group format: plain integers, deltas of non-decreasing integers, and
//! XOR deltas of IEEE-754 double bit patterns.

use vstd::prelude::*;

pub mod byteio;
pub mod wire;
pub mod pack;
pub mod sink;
pub mod unpack;
pub mod laws;

verus! {

/// The single failure kind of the codec: a decoder could not satisfy a read
/// it needed to perform, or the XOR encoder received an empty stream.
#[derive(Debug, PartialEq, Eq, Structural)]
pub enum NibblePackError {
    InputTooShort,
}

} // verus!
