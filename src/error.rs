use vstd::prelude::*;

verus! {

/// What can go wrong while decoding.
#[derive(Debug, PartialEq, Eq, Structural)]
pub enum HammingError {
    /// A block could not be decoded: a double error in an extended Hamming
    /// block, or a syndrome that points past the end of a block.
    Decode,
}

} // verus!
