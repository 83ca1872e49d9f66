//! AES-128 as a concrete single-block primitive, provided by the `aes`
//! crate.  The cipher itself is consumed only through the single-block
//! capability traits; what its transforms compute is named, not restated.

use crate::error::BlockCipherError;
use crate::traits::{BlockDecrypt, BlockEncrypt};
use vstd::prelude::*;

verus! {

#[verifier::external_type_specification]
#[verifier::external_body]
pub struct ExAes128(aes::Aes128);

/// What AES-128 encryption does to one 16-byte block under a 16-byte key;
/// a function of the key and the block alone.
pub uninterp spec fn aes128_enc_block(key: Seq<u8>, block: Seq<u8>) -> Seq<u8>;

/// What AES-128 decryption does to one 16-byte block under a 16-byte key;
/// a function of the key and the block alone.
pub uninterp spec fn aes128_dec_block(key: Seq<u8>, block: Seq<u8>) -> Seq<u8>;

/// An AES-128 key schedule.  The ghost `key` records the key bytes the
/// schedule was built from, which the named block transforms are indexed
/// by; only construction through the capability traits sets it, so it
/// always matches the schedule.
pub struct Aes128Cipher {
    inner: aes::Aes128,
    key: Ghost<Seq<u8>>,
}

impl Aes128Cipher {
    /// The key bytes the schedule was built from.
    pub closed spec fn key_view(&self) -> Seq<u8> {
        self.key@
    }
}

/// Relies on aes::Aes128's cipher::KeyInit::new: builds the AES-128 key
/// schedule from exactly 16 key bytes.
#[verifier::external_body]
fn aes128_schedule(key: &[u8]) -> (r: aes::Aes128)
    requires
        key@.len() == 16,
{
    let k = aes::cipher::generic_array::GenericArray::from_slice(key);
    <aes::Aes128 as aes::cipher::KeyInit>::new(k)
}

/// Relies on aes::Aes128's cipher::BlockEncrypt::encrypt_block: encrypts
/// one 16-byte block in place, a deterministic function of key and block.
#[verifier::external_body]
fn aes128_encrypt_block(c: &Aes128Cipher, block: &mut Vec<u8>)
    requires
        old(block)@.len() == 16,
    ensures
        final(block)@ == aes128_enc_block(c.key_view(), old(block)@),
        final(block)@.len() == 16,
{
    let b = aes::cipher::generic_array::GenericArray::from_mut_slice(block.as_mut_slice());
    aes::cipher::BlockEncrypt::encrypt_block(&c.inner, b);
}

/// Relies on aes::Aes128's cipher::BlockDecrypt::decrypt_block: decrypts
/// one 16-byte block in place, a deterministic function of key and block.
#[verifier::external_body]
fn aes128_decrypt_block(c: &Aes128Cipher, block: &mut Vec<u8>)
    requires
        old(block)@.len() == 16,
    ensures
        final(block)@ == aes128_dec_block(c.key_view(), old(block)@),
        final(block)@.len() == 16,
{
    let b = aes::cipher::generic_array::GenericArray::from_mut_slice(block.as_mut_slice());
    aes::cipher::BlockDecrypt::decrypt_block(&c.inner, b);
}

impl BlockEncrypt for Aes128Cipher {
    open spec fn bsize(&self) -> int {
        16
    }

    open spec fn enc(&self, block: Seq<u8>) -> Seq<u8> {
        aes128_enc_block(self.key_view(), block)
    }

    open spec fn keylen_min() -> int {
        16
    }

    open spec fn keylen_max() -> int {
        16
    }

    fn new(key: &[u8]) -> (r: Result<Self, BlockCipherError>) {
        if key.len() == 16 {
            let inner = aes128_schedule(key);
            Ok(Aes128Cipher { inner, key: Ghost(key@) })
        } else {
            Err(BlockCipherError::InvalidKeyLength(key.len()))
        }
    }

    fn block_size(&self) -> (r: usize) {
        16
    }

    fn encrypt(&self, block: &mut Vec<u8>) {
        aes128_encrypt_block(self, block)
    }
}

impl BlockDecrypt for Aes128Cipher {
    open spec fn bsize(&self) -> int {
        16
    }

    open spec fn dec(&self, block: Seq<u8>) -> Seq<u8> {
        aes128_dec_block(self.key_view(), block)
    }

    open spec fn keylen_min() -> int {
        16
    }

    open spec fn keylen_max() -> int {
        16
    }

    fn new(key: &[u8]) -> (r: Result<Self, BlockCipherError>) {
        if key.len() == 16 {
            let inner = aes128_schedule(key);
            Ok(Aes128Cipher { inner, key: Ghost(key@) })
        } else {
            Err(BlockCipherError::InvalidKeyLength(key.len()))
        }
    }

    fn block_size(&self) -> (r: usize) {
        16
    }

    fn decrypt(&self, block: &mut Vec<u8>) {
        aes128_decrypt_block(self, block)
    }
}

} // verus!
