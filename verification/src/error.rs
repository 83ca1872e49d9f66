//! Error taxonomy of the mode engines.

use vstd::prelude::*;

verus! {

/// Failure of a mode engine or of primitive construction.
///
/// `IncompleteBlock(missing)` reports a finalize or flush attempted while the
/// working buffer held a partial block; `missing` is exactly the number of
/// bytes still needed to complete it.  `InvalidKeyLength(len)` reports a key
/// outside the primitive's accepted range at construction time.
#[derive(Clone, Copy, Debug, PartialEq, Eq, Structural)]
pub enum BlockCipherError {
    IncompleteBlock(usize),
    InvalidKeyLength(usize),
}

} // verus!
