//! Electronic-codebook streaming engines: each completed block is
//! transformed by the primitive independently of every other block.

use crate::buffer::FixedBuffer;
use crate::error::BlockCipherError;
use crate::model::{ecb_dec_out, ecb_enc_out, lemma_chunk_index, lemma_ecb_dec_split, lemma_ecb_enc_split};
use vstd::arithmetic::div_mod::lemma_mod_add_multiples_vanish;
use crate::traits::{BlockDecrypt, BlockEncrypt};
use vstd::prelude::*;
use vstd::slice::slice_subrange;

verus! {

/// Streaming ECB encryption over a primitive `T`.
///
/// Bytes written accumulate in a working buffer of one block; every block
/// that becomes full is encrypted on its own and appended to the output
/// accumulator, which `finalize` hands over once the stream ends on a block
/// boundary.
pub struct EcbEncryption<T: BlockEncrypt> {
    pub primitive: T,
    pub buffer: FixedBuffer,
    pub out: Vec<u8>,
}

impl<T: BlockEncrypt> EcbEncryption<T> {
    /// The working buffer's capacity is the primitive's block size.
    pub open spec fn wf(&self) -> bool {
        &&& self.buffer.wf()
        &&& self.buffer.cap as int == self.primitive.bsize()
    }

    /// Creates an engine from key material; fails exactly when the key
    /// length falls outside the primitive's accepted range.
    pub fn new(key: &[u8]) -> (r: Result<Self, BlockCipherError>)
        ensures
            r is Ok <==> T::keylen_min() <= key@.len() <= T::keylen_max(),
            r is Err ==> r == Err::<Self, BlockCipherError>(
                BlockCipherError::InvalidKeyLength(key@.len() as usize),
            ),
            r is Ok ==> r->Ok_0.wf() && r->Ok_0.buffer@ == Seq::<u8>::empty()
                && r->Ok_0.out@ == Seq::<u8>::empty(),
    {
        match T::new(key) {
            Ok(primitive) => {
                let cap = primitive.block_size();
                Ok(EcbEncryption { primitive, buffer: FixedBuffer::new(cap), out: Vec::new() })
            },
            Err(e) => Err(e),
        }
    }

    /// Encrypts the full working buffer and appends the result to the
    /// output accumulator, leaving the buffer empty.
    fn process_buffer(&mut self)
        requires
            old(self).wf(),
            old(self).buffer@.len() == old(self).buffer.cap,
        ensures
            final(self).wf(),
            final(self).primitive == old(self).primitive,
            final(self).buffer.cap == old(self).buffer.cap,
            final(self).buffer@ == Seq::<u8>::empty(),
            final(self).out@ == old(self).out@ + old(self).primitive.enc(old(self).buffer@),
    {
        let mut block = self.buffer.extract();
        self.primitive.encrypt(&mut block);
        self.out.append(&mut block);
    }

    /// Consumes all of `buf`, encrypting each block completed along the way,
    /// and returns the number of bytes consumed (always all of them).
    ///
    /// Every leading complete block of the bytes fed so far ends up
    /// encrypted in the output accumulator, except that a block completed by
    /// the very last byte consumed stays buffered until more bytes arrive or
    /// the stream is finalized.
    pub fn write(&mut self, buf: &[u8]) -> (r: usize)
        requires
            old(self).wf(),
        ensures
            final(self).wf(),
            final(self).primitive == old(self).primitive,
            final(self).buffer.cap == old(self).buffer.cap,
            r == buf@.len(),
            ({
                let b = old(self).primitive.bsize();
                let total = old(self).buffer@ + buf@;
                let k = if total.len() == 0 {
                    0int
                } else {
                    b * ((total.len() - 1) / b)
                };
                &&& final(self).buffer@ == total.skip(k)
                &&& final(self).out@ == old(self).out@ + ecb_enc_out(
                    &old(self).primitive,
                    total.take(k),
                )
            }),
    {
        let ghost b = self.primitive.bsize();
        let ghost total = self.buffer@ + buf@;
        let ghost mut processed: int = 0;
        let mut written: usize = 0;
        proof {
            assert(total.subrange(0, old(self).buffer@.len() as int) =~= old(self).buffer@);
            assert(total.take(0) =~= Seq::<u8>::empty());
            assert(old(self).out@ + ecb_enc_out(&old(self).primitive, total.take(0)) =~= old(
                self,
            ).out@);
        }
        while written < buf.len()
            invariant
                self.wf(),
                self.primitive == old(self).primitive,
                self.buffer.cap == old(self).buffer.cap,
                b == self.primitive.bsize(),
                1 <= b,
                written <= buf@.len(),
                total == old(self).buffer@ + buf@,
                0 <= processed,
                processed % b == 0,
                processed == 0 || self.buffer@.len() > 0,
                processed + self.buffer@.len() == old(self).buffer@.len() + written,
                self.buffer@ == total.subrange(
                    processed,
                    old(self).buffer@.len() + written as int,
                ),
                self.out@ == old(self).out@ + ecb_enc_out(&self.primitive, total.take(processed)),
            decreases buf@.len() - written,
        {
            let ghost consumed = old(self).buffer@.len() + written as int;
            if self.buffer.is_full() {
                proof {
                    lemma_ecb_enc_split(&self.primitive, total.take(processed + b), processed);
                    assert(total.take(processed + b).take(processed) =~= total.take(processed));
                    assert(total.take(processed + b).skip(processed) =~= self.buffer@);
                    assert(self.buffer@.take(b) =~= self.buffer@);
                    assert(self.buffer@.skip(b) =~= Seq::<u8>::empty());
                    assert(ecb_enc_out(&self.primitive, Seq::<u8>::empty())
                        == Seq::<u8>::empty());
                    assert(ecb_enc_out(&self.primitive, total.take(processed + b)) =~= ecb_enc_out(
                        &self.primitive,
                        total.take(processed),
                    ) + self.primitive.enc(self.buffer@));
                }
                self.process_buffer();
                proof {
                    lemma_mod_add_multiples_vanish(processed, b);
                    processed = processed + b;
                }
            }
            let n = self.buffer.push_slice(slice_subrange(buf, written, buf.len()));
            proof {
                assert(buf@.skip(written as int).take(n as int) =~= buf@.subrange(
                    written as int,
                    written + n,
                ));
                assert(self.buffer@ =~= total.subrange(processed, consumed + n));
            }
            written = written + n;
        }
        proof {
            let k = if total.len() == 0 {
                0int
            } else {
                b * ((total.len() - 1) / b)
            };
            if processed < total.len() {
                lemma_chunk_index(total.len() as int, b, processed);
            } else {
                assert(processed == 0);
                assert(total.len() == 0);
            }
            assert(k == processed);
            assert(self.buffer@ =~= total.skip(k));
        }
        written
    }

    /// Declares the end of the stream and hands over the accumulated output.
    ///
    /// A still-buffered complete block is encrypted first.  If the total
    /// input length was not a multiple of the block size, the call fails
    /// with `IncompleteBlock` carrying exactly the number of bytes missing;
    /// an empty stream succeeds with empty output.  No padding is ever
    /// applied.
    pub fn finalize(self) -> (r: Result<Vec<u8>, BlockCipherError>)
        requires
            self.wf(),
        ensures
            ({
                let b = self.primitive.bsize();
                if self.buffer@.len() == 0 || self.buffer@.len() == b {
                    r is Ok && r->Ok_0@ == self.out@ + ecb_enc_out(&self.primitive, self.buffer@)
                } else {
                    r == Err::<Vec<u8>, BlockCipherError>(
                        BlockCipherError::IncompleteBlock((b - self.buffer@.len()) as usize),
                    )
                }
            }),
    {
        let mut this = self;
        let ghost b = this.primitive.bsize();
        if this.buffer.is_full() {
            proof {
                assert(this.buffer@.take(b) =~= this.buffer@);
                assert(this.buffer@.skip(b) =~= Seq::<u8>::empty());
                assert(ecb_enc_out(&this.primitive, Seq::<u8>::empty()) == Seq::<u8>::empty());
                assert(ecb_enc_out(&this.primitive, this.buffer@) =~= this.primitive.enc(
                    this.buffer@,
                ));
            }
            this.process_buffer();
            proof {
                assert(this.out@ =~= self.out@ + ecb_enc_out(&self.primitive, self.buffer@));
            }
        }
        if !this.buffer.is_empty() {
            let missing = this.buffer.capacity() - this.buffer.len();
            return Err(BlockCipherError::IncompleteBlock(missing));
        }
        proof {
            assert(this.out@ =~= self.out@ + ecb_enc_out(&self.primitive, self.buffer@));
        }
        Ok(this.out)
    }

    /// End-of-stream alignment is not ECB's concern: flushing never fails
    /// and changes nothing.
    pub fn flush(&mut self) -> (r: Result<(), BlockCipherError>)
        ensures
            *final(self) == *old(self),
            r is Ok,
    {
        Ok(())
    }
}

/// Streaming ECB decryption over a primitive `T`; the exact mirror of
/// [`EcbEncryption`], applying the primitive's decryption side per block.
pub struct EcbDecryption<T: BlockDecrypt> {
    pub primitive: T,
    pub buffer: FixedBuffer,
    pub out: Vec<u8>,
}

impl<T: BlockDecrypt> EcbDecryption<T> {
    /// The working buffer's capacity is the primitive's block size.
    pub open spec fn wf(&self) -> bool {
        &&& self.buffer.wf()
        &&& self.buffer.cap as int == self.primitive.bsize()
    }

    /// Creates an engine from key material; fails exactly when the key
    /// length falls outside the primitive's accepted range.
    pub fn new(key: &[u8]) -> (r: Result<Self, BlockCipherError>)
        ensures
            r is Ok <==> T::keylen_min() <= key@.len() <= T::keylen_max(),
            r is Err ==> r == Err::<Self, BlockCipherError>(
                BlockCipherError::InvalidKeyLength(key@.len() as usize),
            ),
            r is Ok ==> r->Ok_0.wf() && r->Ok_0.buffer@ == Seq::<u8>::empty()
                && r->Ok_0.out@ == Seq::<u8>::empty(),
    {
        match T::new(key) {
            Ok(primitive) => {
                let cap = primitive.block_size();
                Ok(EcbDecryption { primitive, buffer: FixedBuffer::new(cap), out: Vec::new() })
            },
            Err(e) => Err(e),
        }
    }

    /// Decrypts the full working buffer and appends the result to the
    /// output accumulator, leaving the buffer empty.
    fn process_buffer(&mut self)
        requires
            old(self).wf(),
            old(self).buffer@.len() == old(self).buffer.cap,
        ensures
            final(self).wf(),
            final(self).primitive == old(self).primitive,
            final(self).buffer.cap == old(self).buffer.cap,
            final(self).buffer@ == Seq::<u8>::empty(),
            final(self).out@ == old(self).out@ + old(self).primitive.dec(old(self).buffer@),
    {
        let mut block = self.buffer.extract();
        self.primitive.decrypt(&mut block);
        self.out.append(&mut block);
    }

    /// Consumes all of `buf`, decrypting each block completed along the way,
    /// and returns the number of bytes consumed (always all of them).
    pub fn write(&mut self, buf: &[u8]) -> (r: usize)
        requires
            old(self).wf(),
        ensures
            final(self).wf(),
            final(self).primitive == old(self).primitive,
            final(self).buffer.cap == old(self).buffer.cap,
            r == buf@.len(),
            ({
                let b = old(self).primitive.bsize();
                let total = old(self).buffer@ + buf@;
                let k = if total.len() == 0 {
                    0int
                } else {
                    b * ((total.len() - 1) / b)
                };
                &&& final(self).buffer@ == total.skip(k)
                &&& final(self).out@ == old(self).out@ + ecb_dec_out(
                    &old(self).primitive,
                    total.take(k),
                )
            }),
    {
        let ghost b = self.primitive.bsize();
        let ghost total = self.buffer@ + buf@;
        let ghost mut processed: int = 0;
        let mut written: usize = 0;
        proof {
            assert(total.subrange(0, old(self).buffer@.len() as int) =~= old(self).buffer@);
            assert(total.take(0) =~= Seq::<u8>::empty());
            assert(old(self).out@ + ecb_dec_out(&old(self).primitive, total.take(0)) =~= old(
                self,
            ).out@);
        }
        while written < buf.len()
            invariant
                self.wf(),
                self.primitive == old(self).primitive,
                self.buffer.cap == old(self).buffer.cap,
                b == self.primitive.bsize(),
                1 <= b,
                written <= buf@.len(),
                total == old(self).buffer@ + buf@,
                0 <= processed,
                processed % b == 0,
                processed == 0 || self.buffer@.len() > 0,
                processed + self.buffer@.len() == old(self).buffer@.len() + written,
                self.buffer@ == total.subrange(
                    processed,
                    old(self).buffer@.len() + written as int,
                ),
                self.out@ == old(self).out@ + ecb_dec_out(&self.primitive, total.take(processed)),
            decreases buf@.len() - written,
        {
            let ghost consumed = old(self).buffer@.len() + written as int;
            if self.buffer.is_full() {
                proof {
                    lemma_ecb_dec_split(&self.primitive, total.take(processed + b), processed);
                    assert(total.take(processed + b).take(processed) =~= total.take(processed));
                    assert(total.take(processed + b).skip(processed) =~= self.buffer@);
                    assert(self.buffer@.take(b) =~= self.buffer@);
                    assert(self.buffer@.skip(b) =~= Seq::<u8>::empty());
                    assert(ecb_dec_out(&self.primitive, Seq::<u8>::empty())
                        == Seq::<u8>::empty());
                    assert(ecb_dec_out(&self.primitive, total.take(processed + b)) =~= ecb_dec_out(
                        &self.primitive,
                        total.take(processed),
                    ) + self.primitive.dec(self.buffer@));
                }
                self.process_buffer();
                proof {
                    lemma_mod_add_multiples_vanish(processed, b);
                    processed = processed + b;
                }
            }
            let n = self.buffer.push_slice(slice_subrange(buf, written, buf.len()));
            proof {
                assert(buf@.skip(written as int).take(n as int) =~= buf@.subrange(
                    written as int,
                    written + n,
                ));
                assert(self.buffer@ =~= total.subrange(processed, consumed + n));
            }
            written = written + n;
        }
        proof {
            let k = if total.len() == 0 {
                0int
            } else {
                b * ((total.len() - 1) / b)
            };
            if processed < total.len() {
                lemma_chunk_index(total.len() as int, b, processed);
            } else {
                assert(processed == 0);
                assert(total.len() == 0);
            }
            assert(k == processed);
            assert(self.buffer@ =~= total.skip(k));
        }
        written
    }

    /// Declares the end of the stream and hands over the accumulated output;
    /// fails with `IncompleteBlock` exactly when the total input length was
    /// not a multiple of the block size.
    pub fn finalize(self) -> (r: Result<Vec<u8>, BlockCipherError>)
        requires
            self.wf(),
        ensures
            ({
                let b = self.primitive.bsize();
                if self.buffer@.len() == 0 || self.buffer@.len() == b {
                    r is Ok && r->Ok_0@ == self.out@ + ecb_dec_out(&self.primitive, self.buffer@)
                } else {
                    r == Err::<Vec<u8>, BlockCipherError>(
                        BlockCipherError::IncompleteBlock((b - self.buffer@.len()) as usize),
                    )
                }
            }),
    {
        let mut this = self;
        let ghost b = this.primitive.bsize();
        if this.buffer.is_full() {
            proof {
                assert(this.buffer@.take(b) =~= this.buffer@);
                assert(this.buffer@.skip(b) =~= Seq::<u8>::empty());
                assert(ecb_dec_out(&this.primitive, Seq::<u8>::empty()) == Seq::<u8>::empty());
                assert(ecb_dec_out(&this.primitive, this.buffer@) =~= this.primitive.dec(
                    this.buffer@,
                ));
            }
            this.process_buffer();
            proof {
                assert(this.out@ =~= self.out@ + ecb_dec_out(&self.primitive, self.buffer@));
            }
        }
        if !this.buffer.is_empty() {
            let missing = this.buffer.capacity() - this.buffer.len();
            return Err(BlockCipherError::IncompleteBlock(missing));
        }
        proof {
            assert(this.out@ =~= self.out@ + ecb_dec_out(&self.primitive, self.buffer@));
        }
        Ok(this.out)
    }

    /// End-of-stream alignment is not ECB's concern: flushing never fails
    /// and changes nothing.
    pub fn flush(&mut self) -> (r: Result<(), BlockCipherError>)
        ensures
            *final(self) == *old(self),
            r is Ok,
    {
        Ok(())
    }
}

} // verus!
