//! The abstract single-block cipher capability: a keyed, fixed-size,
//! stateless byte-block transform with separate encryption and decryption
//! sides.  Mode engines consume a primitive exclusively through these traits.

use crate::error::BlockCipherError;
use vstd::prelude::*;

verus! {

/// Single-block encryption capability of a primitive with a fixed key
/// schedule.  `enc` is the mathematical block transform; `encrypt` performs
/// it in place and is stateless: the primitive itself never changes.
pub trait BlockEncrypt: Sized {
    /// Block size in bytes, fixed for the primitive's whole lifetime.
    spec fn bsize(&self) -> int;

    /// The block transform itself: what encryption does to one block.
    spec fn enc(&self, block: Seq<u8>) -> Seq<u8>;

    /// Smallest accepted key length in bytes.
    spec fn keylen_min() -> int;

    /// Largest accepted key length in bytes.
    spec fn keylen_max() -> int;

    /// Builds the primitive from key material; fails exactly when the key
    /// length falls outside the accepted range.
    fn new(key: &[u8]) -> (r: Result<Self, BlockCipherError>)
        ensures
            r is Ok <==> Self::keylen_min() <= key@.len() <= Self::keylen_max(),
            r is Err ==> r == Err::<Self, BlockCipherError>(
                BlockCipherError::InvalidKeyLength(key@.len() as usize),
            ),
            r is Ok ==> 1 <= r->Ok_0.bsize() <= usize::MAX,
    ;

    /// Reports the primitive's block size.
    fn block_size(&self) -> (r: usize)
        ensures
            r as int == self.bsize(),
            1 <= r,
    ;

    /// Encrypts one complete block in place.
    fn encrypt(&self, block: &mut Vec<u8>)
        requires
            old(block)@.len() == self.bsize(),
        ensures
            final(block)@ == self.enc(old(block)@),
            final(block)@.len() == old(block)@.len(),
    ;
}

/// Single-block decryption capability; the mirror image of [`BlockEncrypt`].
pub trait BlockDecrypt: Sized {
    /// Block size in bytes, fixed for the primitive's whole lifetime.
    spec fn bsize(&self) -> int;

    /// The block transform itself: what decryption does to one block.
    spec fn dec(&self, block: Seq<u8>) -> Seq<u8>;

    /// Smallest accepted key length in bytes.
    spec fn keylen_min() -> int;

    /// Largest accepted key length in bytes.
    spec fn keylen_max() -> int;

    /// Builds the primitive from key material; fails exactly when the key
    /// length falls outside the accepted range.
    fn new(key: &[u8]) -> (r: Result<Self, BlockCipherError>)
        ensures
            r is Ok <==> Self::keylen_min() <= key@.len() <= Self::keylen_max(),
            r is Err ==> r == Err::<Self, BlockCipherError>(
                BlockCipherError::InvalidKeyLength(key@.len() as usize),
            ),
            r is Ok ==> 1 <= r->Ok_0.bsize() <= usize::MAX,
    ;

    /// Reports the primitive's block size.
    fn block_size(&self) -> (r: usize)
        ensures
            r as int == self.bsize(),
            1 <= r,
    ;

    /// Decrypts one complete block in place.
    fn decrypt(&self, block: &mut Vec<u8>)
        requires
            old(block)@.len() == self.bsize(),
        ensures
            final(block)@ == self.dec(old(block)@),
            final(block)@.len() == old(block)@.len(),
    ;
}

} // verus!
