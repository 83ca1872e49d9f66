//! A generic buffering adapter: wraps any single-block encrypt or decrypt
//! capability and presents the same push-bytes/finalize protocol as the mode
//! engines, so that mode logic composes with this adapter instead of
//! duplicating the buffering code.

use crate::buffer::FixedBuffer;
use crate::error::BlockCipherError;
use crate::model::{ecb_dec_out, ecb_enc_out, lemma_chunk_index, lemma_ecb_dec_split, lemma_ecb_enc_split};
use crate::traits::{BlockDecrypt, BlockEncrypt};
use vstd::arithmetic::div_mod::lemma_mod_add_multiples_vanish;
use vstd::prelude::*;
use vstd::slice::slice_subrange;

verus! {

/// Lifts any single-block encryption capability into a buffered streaming
/// engine.
pub trait BufferedCipherEncryptionProvider: Sized {
    type Cipher: BlockEncrypt;

    /// Wraps `self` into a fresh buffered streaming engine.
    fn buffered(self) -> (r: BufferedCipherEncryption<Self::Cipher>)
        ensures
            r.wf(),
            r.buffer@ == Seq::<u8>::empty(),
            r.out@ == Seq::<u8>::empty(),
    ;
}

/// Lifts any single-block decryption capability into a buffered streaming
/// engine.
pub trait BufferedCipherDecryptionProvider: Sized {
    type Cipher: BlockDecrypt;

    /// Wraps `self` into a fresh buffered streaming engine.
    fn buffered(self) -> (r: BufferedCipherDecryption<Self::Cipher>)
        ensures
            r.wf(),
            r.buffer@ == Seq::<u8>::empty(),
            r.out@ == Seq::<u8>::empty(),
    ;
}

impl<T: BlockEncrypt> BufferedCipherEncryptionProvider for T {
    type Cipher = T;

    fn buffered(self) -> (r: BufferedCipherEncryption<T>)
        ensures
            r.primitive == self,
    {
        BufferedCipherEncryption::new(self)
    }
}

impl<T: BlockDecrypt> BufferedCipherDecryptionProvider for T {
    type Cipher = T;

    fn buffered(self) -> (r: BufferedCipherDecryption<T>)
        ensures
            r.primitive == self,
    {
        BufferedCipherDecryption::new(self)
    }
}

/// Buffered streaming encryption over a single-block capability `T`; each
/// completed block is transformed independently, as in ECB.
pub struct BufferedCipherEncryption<T: BlockEncrypt> {
    pub primitive: T,
    pub buffer: FixedBuffer,
    pub out: Vec<u8>,
}

impl<T: BlockEncrypt> BufferedCipherEncryption<T> {
    /// The working buffer's capacity is the primitive's block size.
    pub open spec fn wf(&self) -> bool {
        &&& self.buffer.wf()
        &&& self.buffer.cap as int == self.primitive.bsize()
    }

    /// Wraps an already-constructed single-block capability.
    pub fn new(cipher: T) -> (r: Self)
        ensures
            r.wf(),
            r.primitive == cipher,
            r.buffer@ == Seq::<u8>::empty(),
            r.out@ == Seq::<u8>::empty(),
    {
        let cap = cipher.block_size();
        BufferedCipherEncryption {
            primitive: cipher,
            buffer: FixedBuffer::new(cap),
            out: Vec::new(),
        }
    }

    /// Bytes needed to complete the currently buffered partial block; `None`
    /// when the buffer is empty or full.
    pub fn missing(&self) -> (r: Option<usize>)
        requires
            self.wf(),
        ensures
            ({
                let b = self.primitive.bsize();
                let fill = self.buffer@.len();
                if fill == 0 || fill == b {
                    r is None
                } else {
                    r == Some(((b - fill) as usize))
                }
            }),
    {
        if !self.buffer.is_full() && !self.buffer.is_empty() {
            return Some(self.buffer.capacity() - self.buffer.len());
        }
        None
    }

    /// Encrypts the full working buffer and appends the result to the
    /// output accumulator, leaving the buffer empty.
    fn process_buffer(&mut self)
        requires
            old(self).wf(),
            old(self).buffer@.len() == old(self).buffer.cap,
        ensures
            final(self).wf(),
            final(self).primitive == old(self).primitive,
            final(self).buffer.cap == old(self).buffer.cap,
            final(self).buffer@ == Seq::<u8>::empty(),
            final(self).out@ == old(self).out@ + old(self).primitive.enc(old(self).buffer@),
    {
        let mut block = self.buffer.extract();
        self.primitive.encrypt(&mut block);
        self.out.append(&mut block);
    }

    /// Consumes all of `buf`, encrypting each block completed along the way,
    /// and returns the number of bytes consumed (always all of them).
    pub fn write(&mut self, buf: &[u8]) -> (r: usize)
        requires
            old(self).wf(),
        ensures
            final(self).wf(),
            final(self).primitive == old(self).primitive,
            final(self).buffer.cap == old(self).buffer.cap,
            r == buf@.len(),
            ({
                let b = old(self).primitive.bsize();
                let total = old(self).buffer@ + buf@;
                let k = if total.len() == 0 {
                    0int
                } else {
                    b * ((total.len() - 1) / b)
                };
                &&& final(self).buffer@ == total.skip(k)
                &&& final(self).out@ == old(self).out@ + ecb_enc_out(
                    &old(self).primitive,
                    total.take(k),
                )
            }),
    {
        let ghost b = self.primitive.bsize();
        let ghost total = self.buffer@ + buf@;
        let ghost mut processed: int = 0;
        let mut written: usize = 0;
        proof {
            assert(total.subrange(0, old(self).buffer@.len() as int) =~= old(self).buffer@);
            assert(total.take(0) =~= Seq::<u8>::empty());
            assert(old(self).out@ + ecb_enc_out(&old(self).primitive, total.take(0)) =~= old(
                self,
            ).out@);
        }
        while written < buf.len()
            invariant
                self.wf(),
                self.primitive == old(self).primitive,
                self.buffer.cap == old(self).buffer.cap,
                b == self.primitive.bsize(),
                1 <= b,
                written <= buf@.len(),
                total == old(self).buffer@ + buf@,
                0 <= processed,
                processed % b == 0,
                processed == 0 || self.buffer@.len() > 0,
                processed + self.buffer@.len() == old(self).buffer@.len() + written,
                self.buffer@ == total.subrange(
                    processed,
                    old(self).buffer@.len() + written as int,
                ),
                self.out@ == old(self).out@ + ecb_enc_out(&self.primitive, total.take(processed)),
            decreases buf@.len() - written,
        {
            let ghost consumed = old(self).buffer@.len() + written as int;
            if self.buffer.is_full() {
                proof {
                    lemma_ecb_enc_split(&self.primitive, total.take(processed + b), processed);
                    assert(total.take(processed + b).take(processed) =~= total.take(processed));
                    assert(total.take(processed + b).skip(processed) =~= self.buffer@);
                    assert(self.buffer@.take(b) =~= self.buffer@);
                    assert(self.buffer@.skip(b) =~= Seq::<u8>::empty());
                    assert(ecb_enc_out(&self.primitive, Seq::<u8>::empty())
                        == Seq::<u8>::empty());
                    assert(ecb_enc_out(&self.primitive, total.take(processed + b)) =~= ecb_enc_out(
                        &self.primitive,
                        total.take(processed),
                    ) + self.primitive.enc(self.buffer@));
                }
                self.process_buffer();
                proof {
                    lemma_mod_add_multiples_vanish(processed, b);
                    processed = processed + b;
                }
            }
            let n = self.buffer.push_slice(slice_subrange(buf, written, buf.len()));
            proof {
                assert(buf@.skip(written as int).take(n as int) =~= buf@.subrange(
                    written as int,
                    written + n,
                ));
                assert(self.buffer@ =~= total.subrange(processed, consumed + n));
            }
            written = written + n;
        }
        proof {
            let k = if total.len() == 0 {
                0int
            } else {
                b * ((total.len() - 1) / b)
            };
            if processed < total.len() {
                lemma_chunk_index(total.len() as int, b, processed);
            } else {
                assert(processed == 0);
                assert(total.len() == 0);
            }
            assert(k == processed);
            assert(self.buffer@ =~= total.skip(k));
        }
        written
    }

    /// Consumes the engine and hands over the accumulated output; fails
    /// with `IncompleteBlock` exactly when the total input length was not a
    /// multiple of the block size.
    pub fn finalize(self) -> (r: Result<Vec<u8>, BlockCipherError>)
        requires
            self.wf(),
        ensures
            ({
                let b = self.primitive.bsize();
                if self.buffer@.len() == 0 || self.buffer@.len() == b {
                    r is Ok && r->Ok_0@ == self.out@ + ecb_enc_out(&self.primitive, self.buffer@)
                } else {
                    r == Err::<Vec<u8>, BlockCipherError>(
                        BlockCipherError::IncompleteBlock((b - self.buffer@.len()) as usize),
                    )
                }
            }),
    {
        let mut this = self;
        match this.finalize_and_reset() {
            Ok(out) => Ok(out),
            Err(e) => Err(e),
        }
    }

    /// Hands over the accumulated output and resets the buffering state
    /// without reconstructing the primitive, so the engine can serve an
    /// independent stream under the same key.  On `IncompleteBlock` the
    /// engine is left unchanged: the caller may supply the missing bytes
    /// and retry.
    pub fn finalize_and_reset(&mut self) -> (r: Result<Vec<u8>, BlockCipherError>)
        requires
            old(self).wf(),
        ensures
            final(self).wf(),
            final(self).primitive == old(self).primitive,
            final(self).buffer.cap == old(self).buffer.cap,
            ({
                let b = old(self).primitive.bsize();
                let fill = old(self).buffer@.len();
                if fill == 0 || fill == b {
                    &&& r is Ok
                    &&& r->Ok_0@ == old(self).out@ + ecb_enc_out(
                        &old(self).primitive,
                        old(self).buffer@,
                    )
                    &&& final(self).buffer@ == Seq::<u8>::empty()
                    &&& final(self).out@ == Seq::<u8>::empty()
                } else {
                    &&& r == Err::<Vec<u8>, BlockCipherError>(
                        BlockCipherError::IncompleteBlock((b - fill) as usize),
                    )
                    &&& *final(self) == *old(self)
                }
            }),
    {
        let ghost b = self.primitive.bsize();
        if self.buffer.is_full() {
            proof {
                assert(self.buffer@.take(b) =~= self.buffer@);
                assert(self.buffer@.skip(b) =~= Seq::<u8>::empty());
                assert(ecb_enc_out(&self.primitive, Seq::<u8>::empty()) == Seq::<u8>::empty());
                assert(ecb_enc_out(&self.primitive, self.buffer@) =~= self.primitive.enc(
                    self.buffer@,
                ));
            }
            self.process_buffer();
            proof {
                assert(self.out@ =~= old(self).out@ + ecb_enc_out(
                    &old(self).primitive,
                    old(self).buffer@,
                ));
            }
        }
        if !self.buffer.is_empty() {
            let missing = self.buffer.capacity() - self.buffer.len();
            return Err(BlockCipherError::IncompleteBlock(missing));
        }
        let mut out: Vec<u8> = Vec::new();
        core::mem::swap(&mut out, &mut self.out);
        proof {
            assert(out@ =~= old(self).out@ + ecb_enc_out(&old(self).primitive, old(self).buffer@));
        }
        Ok(out)
    }

    /// End-of-stream alignment is not the adapter's concern: flushing never
    /// fails and changes nothing.
    pub fn flush(&mut self) -> (r: Result<(), BlockCipherError>)
        ensures
            *final(self) == *old(self),
            r is Ok,
    {
        Ok(())
    }
}

/// Buffered streaming decryption over a single-block capability `T`; the
/// exact mirror of [`BufferedCipherEncryption`].
pub struct BufferedCipherDecryption<T: BlockDecrypt> {
    pub primitive: T,
    pub buffer: FixedBuffer,
    pub out: Vec<u8>,
}

impl<T: BlockDecrypt> BufferedCipherDecryption<T> {
    /// The working buffer's capacity is the primitive's block size.
    pub open spec fn wf(&self) -> bool {
        &&& self.buffer.wf()
        &&& self.buffer.cap as int == self.primitive.bsize()
    }

    /// Wraps an already-constructed single-block capability.
    pub fn new(cipher: T) -> (r: Self)
        ensures
            r.wf(),
            r.primitive == cipher,
            r.buffer@ == Seq::<u8>::empty(),
            r.out@ == Seq::<u8>::empty(),
    {
        let cap = cipher.block_size();
        BufferedCipherDecryption {
            primitive: cipher,
            buffer: FixedBuffer::new(cap),
            out: Vec::new(),
        }
    }

    /// Bytes needed to complete the currently buffered partial block; `None`
    /// when the buffer is empty or full.
    pub fn missing(&self) -> (r: Option<usize>)
        requires
            self.wf(),
        ensures
            ({
                let b = self.primitive.bsize();
                let fill = self.buffer@.len();
                if fill == 0 || fill == b {
                    r is None
                } else {
                    r == Some(((b - fill) as usize))
                }
            }),
    {
        if !self.buffer.is_full() && !self.buffer.is_empty() {
            return Some(self.buffer.capacity() - self.buffer.len());
        }
        None
    }

    /// Decrypts the full working buffer and appends the result to the
    /// output accumulator, leaving the buffer empty.
    fn process_buffer(&mut self)
        requires
            old(self).wf(),
            old(self).buffer@.len() == old(self).buffer.cap,
        ensures
            final(self).wf(),
            final(self).primitive == old(self).primitive,
            final(self).buffer.cap == old(self).buffer.cap,
            final(self).buffer@ == Seq::<u8>::empty(),
            final(self).out@ == old(self).out@ + old(self).primitive.dec(old(self).buffer@),
    {
        let mut block = self.buffer.extract();
        self.primitive.decrypt(&mut block);
        self.out.append(&mut block);
    }

    /// Consumes all of `buf`, decrypting each block completed along the way,
    /// and returns the number of bytes consumed (always all of them).
    pub fn write(&mut self, buf: &[u8]) -> (r: usize)
        requires
            old(self).wf(),
        ensures
            final(self).wf(),
            final(self).primitive == old(self).primitive,
            final(self).buffer.cap == old(self).buffer.cap,
            r == buf@.len(),
            ({
                let b = old(self).primitive.bsize();
                let total = old(self).buffer@ + buf@;
                let k = if total.len() == 0 {
                    0int
                } else {
                    b * ((total.len() - 1) / b)
                };
                &&& final(self).buffer@ == total.skip(k)
                &&& final(self).out@ == old(self).out@ + ecb_dec_out(
                    &old(self).primitive,
                    total.take(k),
                )
            }),
    {
        let ghost b = self.primitive.bsize();
        let ghost total = self.buffer@ + buf@;
        let ghost mut processed: int = 0;
        let mut written: usize = 0;
        proof {
            assert(total.subrange(0, old(self).buffer@.len() as int) =~= old(self).buffer@);
            assert(total.take(0) =~= Seq::<u8>::empty());
            assert(old(self).out@ + ecb_dec_out(&old(self).primitive, total.take(0)) =~= old(
                self,
            ).out@);
        }
        while written < buf.len()
            invariant
                self.wf(),
                self.primitive == old(self).primitive,
                self.buffer.cap == old(self).buffer.cap,
                b == self.primitive.bsize(),
                1 <= b,
                written <= buf@.len(),
                total == old(self).buffer@ + buf@,
                0 <= processed,
                processed % b == 0,
                processed == 0 || self.buffer@.len() > 0,
                processed + self.buffer@.len() == old(self).buffer@.len() + written,
                self.buffer@ == total.subrange(
                    processed,
                    old(self).buffer@.len() + written as int,
                ),
                self.out@ == old(self).out@ + ecb_dec_out(&self.primitive, total.take(processed)),
            decreases buf@.len() - written,
        {
            let ghost consumed = old(self).buffer@.len() + written as int;
            if self.buffer.is_full() {
                proof {
                    lemma_ecb_dec_split(&self.primitive, total.take(processed + b), processed);
                    assert(total.take(processed + b).take(processed) =~= total.take(processed));
                    assert(total.take(processed + b).skip(processed) =~= self.buffer@);
                    assert(self.buffer@.take(b) =~= self.buffer@);
                    assert(self.buffer@.skip(b) =~= Seq::<u8>::empty());
                    assert(ecb_dec_out(&self.primitive, Seq::<u8>::empty())
                        == Seq::<u8>::empty());
                    assert(ecb_dec_out(&self.primitive, total.take(processed + b)) =~= ecb_dec_out(
                        &self.primitive,
                        total.take(processed),
                    ) + self.primitive.dec(self.buffer@));
                }
                self.process_buffer();
                proof {
                    lemma_mod_add_multiples_vanish(processed, b);
                    processed = processed + b;
                }
            }
            let n = self.buffer.push_slice(slice_subrange(buf, written, buf.len()));
            proof {
                assert(buf@.skip(written as int).take(n as int) =~= buf@.subrange(
                    written as int,
                    written + n,
                ));
                assert(self.buffer@ =~= total.subrange(processed, consumed + n));
            }
            written = written + n;
        }
        proof {
            let k = if total.len() == 0 {
                0int
            } else {
                b * ((total.len() - 1) / b)
            };
            if processed < total.len() {
                lemma_chunk_index(total.len() as int, b, processed);
            } else {
                assert(processed == 0);
                assert(total.len() == 0);
            }
            assert(k == processed);
            assert(self.buffer@ =~= total.skip(k));
        }
        written
    }

    /// Consumes the engine and hands over the accumulated output; fails
    /// with `IncompleteBlock` exactly when the total input length was not a
    /// multiple of the block size.
    pub fn finalize(self) -> (r: Result<Vec<u8>, BlockCipherError>)
        requires
            self.wf(),
        ensures
            ({
                let b = self.primitive.bsize();
                if self.buffer@.len() == 0 || self.buffer@.len() == b {
                    r is Ok && r->Ok_0@ == self.out@ + ecb_dec_out(&self.primitive, self.buffer@)
                } else {
                    r == Err::<Vec<u8>, BlockCipherError>(
                        BlockCipherError::IncompleteBlock((b - self.buffer@.len()) as usize),
                    )
                }
            }),
    {
        let mut this = self;
        match this.finalize_and_reset() {
            Ok(out) => Ok(out),
            Err(e) => Err(e),
        }
    }

    /// Hands over the accumulated output and resets the buffering state
    /// without reconstructing the primitive; on `IncompleteBlock` the
    /// engine is left unchanged.
    pub fn finalize_and_reset(&mut self) -> (r: Result<Vec<u8>, BlockCipherError>)
        requires
            old(self).wf(),
        ensures
            final(self).wf(),
            final(self).primitive == old(self).primitive,
            final(self).buffer.cap == old(self).buffer.cap,
            ({
                let b = old(self).primitive.bsize();
                let fill = old(self).buffer@.len();
                if fill == 0 || fill == b {
                    &&& r is Ok
                    &&& r->Ok_0@ == old(self).out@ + ecb_dec_out(
                        &old(self).primitive,
                        old(self).buffer@,
                    )
                    &&& final(self).buffer@ == Seq::<u8>::empty()
                    &&& final(self).out@ == Seq::<u8>::empty()
                } else {
                    &&& r == Err::<Vec<u8>, BlockCipherError>(
                        BlockCipherError::IncompleteBlock((b - fill) as usize),
                    )
                    &&& *final(self) == *old(self)
                }
            }),
    {
        let ghost b = self.primitive.bsize();
        if self.buffer.is_full() {
            proof {
                assert(self.buffer@.take(b) =~= self.buffer@);
                assert(self.buffer@.skip(b) =~= Seq::<u8>::empty());
                assert(ecb_dec_out(&self.primitive, Seq::<u8>::empty()) == Seq::<u8>::empty());
                assert(ecb_dec_out(&self.primitive, self.buffer@) =~= self.primitive.dec(
                    self.buffer@,
                ));
            }
            self.process_buffer();
            proof {
                assert(self.out@ =~= old(self).out@ + ecb_dec_out(
                    &old(self).primitive,
                    old(self).buffer@,
                ));
            }
        }
        if !self.buffer.is_empty() {
            let missing = self.buffer.capacity() - self.buffer.len();
            return Err(BlockCipherError::IncompleteBlock(missing));
        }
        let mut out: Vec<u8> = Vec::new();
        core::mem::swap(&mut out, &mut self.out);
        proof {
            assert(out@ =~= old(self).out@ + ecb_dec_out(&old(self).primitive, old(self).buffer@));
        }
        Ok(out)
    }

    /// End-of-stream alignment is not the adapter's concern: flushing never
    /// fails and changes nothing.
    pub fn flush(&mut self) -> (r: Result<(), BlockCipherError>)
        ensures
            *final(self) == *old(self),
            r is Ok,
    {
        Ok(())
    }
}

} // verus!
