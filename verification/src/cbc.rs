//! Cipher-block-chaining streaming engines.  Encryption combines each
//! plaintext block with the previous ciphertext block before the primitive
//! transforms it; decryption transforms each ciphertext block and then
//! combines it with the previous ciphertext block.  Both are seeded by a
//! caller-supplied initialisation vector.

use crate::buffer::FixedBuffer;
use crate::error::BlockCipherError;
use crate::model::{
    cbc_dec_iv, cbc_dec_out, cbc_enc_iv, cbc_enc_out, lemma_cbc_dec_split, lemma_cbc_enc_split,
    lemma_chunk_index,
};
use crate::traits::{BlockDecrypt, BlockEncrypt};
use crate::xorbuf::{xor_bytes, xor_into};
use vstd::arithmetic::div_mod::lemma_mod_add_multiples_vanish;
use vstd::prelude::*;
use vstd::slice::{slice_subrange, slice_to_vec};

verus! {

/// The effective initialisation vector: up to one block of the supplied
/// bytes, any shortfall left at the default zero value.
pub open spec fn iv_init(iv: Seq<u8>, b: int) -> Seq<u8>
    recommends
        0 <= b,
{
    Seq::new(b as nat, |i: int| if i < iv.len() { iv[i] } else { 0u8 })
}

/// Builds the block-sized chaining buffer from caller-supplied bytes, of
/// which at most `cap` are consumed; the rest of the block stays zero.
fn make_iv(iv: &[u8], cap: usize) -> (r: Vec<u8>)
    ensures
        r@ == iv_init(iv@, cap as int),
{
    let n = if iv.len() < cap {
        iv.len()
    } else {
        cap
    };
    let mut v: Vec<u8> = Vec::new();
    let mut i: usize = 0;
    while i < n
        invariant
            i <= n,
            n <= iv@.len(),
            n <= cap,
            v@.len() == i,
            forall|j: int| 0 <= j < i ==> v@[j] == iv@[j],
        decreases n - i,
    {
        let byte = iv[i];
        v.push(byte);
        i = i + 1;
    }
    while i < cap
        invariant
            n <= i <= cap,
            n <= iv@.len(),
            v@.len() == i,
            forall|j: int| 0 <= j < n ==> v@[j] == iv@[j],
            forall|j: int| n <= j < i ==> v@[j] == 0u8,
        decreases cap - i,
    {
        v.push(0u8);
        i = i + 1;
    }
    assert(v@ =~= iv_init(iv@, cap as int));
    v
}

/// Streaming CBC encryption over a primitive `T`.
///
/// The chaining buffer `iv` always holds the value the next completed block
/// will be combined with: the caller's initialisation vector at first, the
/// previous ciphertext block afterwards.
pub struct CbcEncryption<T: BlockEncrypt> {
    pub primitive: T,
    pub buffer: FixedBuffer,
    pub iv: Vec<u8>,
    pub out: Vec<u8>,
}

impl<T: BlockEncrypt> CbcEncryption<T> {
    /// The working buffer's capacity is the primitive's block size, and the
    /// chaining buffer always holds exactly one block.
    pub open spec fn wf(&self) -> bool {
        &&& self.buffer.wf()
        &&& self.buffer.cap as int == self.primitive.bsize()
        &&& self.iv@.len() == self.primitive.bsize()
    }

    /// Creates an engine from a primitive and an initialisation vector, of
    /// which at most one block is consumed; any shortfall stays zero.
    pub fn new(primitive: T, iv: &[u8]) -> (r: Self)
        ensures
            r.wf(),
            r.primitive == primitive,
            r.buffer@ == Seq::<u8>::empty(),
            r.iv@ == iv_init(iv@, primitive.bsize()),
            r.out@ == Seq::<u8>::empty(),
    {
        let cap = primitive.block_size();
        let chain = make_iv(iv, cap);
        CbcEncryption { primitive, buffer: FixedBuffer::new(cap), iv: chain, out: Vec::new() }
    }

    /// Combines the full working buffer with the chaining value, encrypts
    /// it, appends the ciphertext to the output and makes it the next
    /// chaining value.
    fn process_buffer(&mut self)
        requires
            old(self).wf(),
            old(self).buffer@.len() == old(self).buffer.cap,
        ensures
            final(self).wf(),
            final(self).primitive == old(self).primitive,
            final(self).buffer.cap == old(self).buffer.cap,
            final(self).buffer@ == Seq::<u8>::empty(),
            ({
                let c = old(self).primitive.enc(xor_bytes(old(self).buffer@, old(self).iv@));
                &&& final(self).iv@ == c
                &&& final(self).out@ == old(self).out@ + c
            }),
    {
        let mut block = self.buffer.extract();
        xor_into(&mut block, self.iv.as_slice());
        self.primitive.encrypt(&mut block);
        self.iv = slice_to_vec(block.as_slice());
        self.out.append(&mut block);
    }

    /// Consumes all of `buf`, encrypting and chaining each block completed
    /// along the way, and returns the number of bytes consumed (always all).
    ///
    /// A block completed by the very last byte consumed stays buffered until
    /// more bytes arrive or the stream is finalized.
    pub fn write(&mut self, buf: &[u8]) -> (r: usize)
        requires
            old(self).wf(),
        ensures
            final(self).wf(),
            final(self).primitive == old(self).primitive,
            final(self).buffer.cap == old(self).buffer.cap,
            r == buf@.len(),
            ({
                let b = old(self).primitive.bsize();
                let total = old(self).buffer@ + buf@;
                let k = if total.len() == 0 {
                    0int
                } else {
                    b * ((total.len() - 1) / b)
                };
                &&& final(self).buffer@ == total.skip(k)
                &&& final(self).iv@ == cbc_enc_iv(
                    &old(self).primitive,
                    old(self).iv@,
                    total.take(k),
                )
                &&& final(self).out@ == old(self).out@ + cbc_enc_out(
                    &old(self).primitive,
                    old(self).iv@,
                    total.take(k),
                )
            }),
    {
        let ghost b = self.primitive.bsize();
        let ghost iv0 = self.iv@;
        let ghost total = self.buffer@ + buf@;
        let ghost mut processed: int = 0;
        let mut written: usize = 0;
        proof {
            assert(total.subrange(0, old(self).buffer@.len() as int) =~= old(self).buffer@);
            assert(total.take(0) =~= Seq::<u8>::empty());
            assert(old(self).out@ + cbc_enc_out(&old(self).primitive, iv0, total.take(0)) =~= old(
                self,
            ).out@);
        }
        while written < buf.len()
            invariant
                self.wf(),
                self.primitive == old(self).primitive,
                self.buffer.cap == old(self).buffer.cap,
                b == self.primitive.bsize(),
                1 <= b,
                written <= buf@.len(),
                total == old(self).buffer@ + buf@,
                0 <= processed,
                processed % b == 0,
                processed == 0 || self.buffer@.len() > 0,
                processed + self.buffer@.len() == old(self).buffer@.len() + written,
                self.buffer@ == total.subrange(
                    processed,
                    old(self).buffer@.len() + written as int,
                ),
                iv0 == old(self).iv@,
                self.iv@ == cbc_enc_iv(&self.primitive, iv0, total.take(processed)),
                self.out@ == old(self).out@ + cbc_enc_out(
                    &self.primitive,
                    iv0,
                    total.take(processed),
                ),
            decreases buf@.len() - written,
        {
            let ghost consumed = old(self).buffer@.len() + written as int;
            if self.buffer.is_full() {
                proof {
                    lemma_cbc_enc_split(&self.primitive, iv0, total.take(processed + b), processed);
                    assert(total.take(processed + b).take(processed) =~= total.take(processed));
                    assert(total.take(processed + b).skip(processed) =~= self.buffer@);
                    assert(self.buffer@.take(b) =~= self.buffer@);
                    assert(self.buffer@.skip(b) =~= Seq::<u8>::empty());
                    let c = self.primitive.enc(xor_bytes(self.buffer@, self.iv@));
                    assert(cbc_enc_out(&self.primitive, c, Seq::<u8>::empty())
                        == Seq::<u8>::empty());
                    assert(cbc_enc_iv(&self.primitive, c, Seq::<u8>::empty()) == c);
                    assert(cbc_enc_out(&self.primitive, iv0, total.take(processed + b))
                        =~= cbc_enc_out(&self.primitive, iv0, total.take(processed)) + c);
                    assert(cbc_enc_iv(&self.primitive, iv0, total.take(processed + b)) == c);
                }
                self.process_buffer();
                proof {
                    lemma_mod_add_multiples_vanish(processed, b);
                    processed = processed + b;
                }
            }
            let n = self.buffer.push_slice(slice_subrange(buf, written, buf.len()));
            proof {
                assert(buf@.skip(written as int).take(n as int) =~= buf@.subrange(
                    written as int,
                    written + n,
                ));
                assert(self.buffer@ =~= total.subrange(processed, consumed + n));
            }
            written = written + n;
        }
        proof {
            let k = if total.len() == 0 {
                0int
            } else {
                b * ((total.len() - 1) / b)
            };
            if processed < total.len() {
                lemma_chunk_index(total.len() as int, b, processed);
            } else {
                assert(processed == 0);
                assert(total.len() == 0);
            }
            assert(k == processed);
            assert(self.buffer@ =~= total.skip(k));
        }
        written
    }

    /// Declares the end of the stream and hands over the accumulated output.
    ///
    /// A still-buffered complete block is encrypted and chained first.  If
    /// the total input length was not a multiple of the block size, the call
    /// fails with `IncompleteBlock` carrying exactly the number of bytes
    /// missing; an empty stream succeeds with empty output.  No padding is
    /// ever applied.
    pub fn finalize(self) -> (r: Result<Vec<u8>, BlockCipherError>)
        requires
            self.wf(),
        ensures
            ({
                let b = self.primitive.bsize();
                if self.buffer@.len() == 0 || self.buffer@.len() == b {
                    r is Ok && r->Ok_0@ == self.out@ + cbc_enc_out(
                        &self.primitive,
                        self.iv@,
                        self.buffer@,
                    )
                } else {
                    r == Err::<Vec<u8>, BlockCipherError>(
                        BlockCipherError::IncompleteBlock((b - self.buffer@.len()) as usize),
                    )
                }
            }),
    {
        let mut this = self;
        let ghost b = this.primitive.bsize();
        if this.buffer.is_full() {
            proof {
                assert(this.buffer@.take(b) =~= this.buffer@);
                assert(this.buffer@.skip(b) =~= Seq::<u8>::empty());
                let c = this.primitive.enc(xor_bytes(this.buffer@, this.iv@));
                assert(cbc_enc_out(&this.primitive, c, Seq::<u8>::empty()) == Seq::<u8>::empty());
                assert(cbc_enc_out(&this.primitive, this.iv@, this.buffer@) =~= c);
            }
            this.process_buffer();
            proof {
                assert(this.out@ =~= self.out@ + cbc_enc_out(
                    &self.primitive,
                    self.iv@,
                    self.buffer@,
                ));
            }
        }
        if !this.buffer.is_empty() {
            let missing = this.buffer.capacity() - this.buffer.len();
            return Err(BlockCipherError::IncompleteBlock(missing));
        }
        proof {
            assert(this.out@ =~= self.out@ + cbc_enc_out(&self.primitive, self.iv@, self.buffer@));
        }
        Ok(this.out)
    }

    /// Independent end-of-stream alignment check: fails with
    /// `IncompleteBlock` exactly when the working buffer holds a partial
    /// block, and never changes the engine.
    pub fn flush(&mut self) -> (r: Result<(), BlockCipherError>)
        requires
            old(self).wf(),
        ensures
            *final(self) == *old(self),
            ({
                let b = old(self).primitive.bsize();
                let fill = old(self).buffer@.len();
                if fill == 0 || fill == b {
                    r is Ok
                } else {
                    r == Err::<(), BlockCipherError>(
                        BlockCipherError::IncompleteBlock((b - fill) as usize),
                    )
                }
            }),
    {
        if !self.buffer.is_full() && !self.buffer.is_empty() {
            let missing = self.buffer.capacity() - self.buffer.len();
            return Err(BlockCipherError::IncompleteBlock(missing));
        }
        Ok(())
    }
}

/// Streaming CBC decryption over a primitive `T`.
///
/// Each completed ciphertext block is captured as the next chaining value
/// before the primitive transforms it in place: decrypting first would
/// destroy the only copy and corrupt every later block.
pub struct CbcDecryption<T: BlockDecrypt> {
    pub primitive: T,
    pub buffer: FixedBuffer,
    pub iv: Vec<u8>,
    pub out: Vec<u8>,
}

impl<T: BlockDecrypt> CbcDecryption<T> {
    /// The working buffer's capacity is the primitive's block size, and the
    /// chaining buffer always holds exactly one block.
    pub open spec fn wf(&self) -> bool {
        &&& self.buffer.wf()
        &&& self.buffer.cap as int == self.primitive.bsize()
        &&& self.iv@.len() == self.primitive.bsize()
    }

    /// Creates an engine from a primitive and an initialisation vector, of
    /// which at most one block is consumed; any shortfall stays zero.
    pub fn new(primitive: T, iv: &[u8]) -> (r: Self)
        ensures
            r.wf(),
            r.primitive == primitive,
            r.buffer@ == Seq::<u8>::empty(),
            r.iv@ == iv_init(iv@, primitive.bsize()),
            r.out@ == Seq::<u8>::empty(),
    {
        let cap = primitive.block_size();
        let chain = make_iv(iv, cap);
        CbcDecryption { primitive, buffer: FixedBuffer::new(cap), iv: chain, out: Vec::new() }
    }

    /// Captures the full working buffer as the next chaining value, then
    /// decrypts it and combines the result with the previous chaining value.
    fn process_buffer(&mut self)
        requires
            old(self).wf(),
            old(self).buffer@.len() == old(self).buffer.cap,
        ensures
            final(self).wf(),
            final(self).primitive == old(self).primitive,
            final(self).buffer.cap == old(self).buffer.cap,
            final(self).buffer@ == Seq::<u8>::empty(),
            final(self).iv@ == old(self).buffer@,
            final(self).out@ == old(self).out@ + xor_bytes(
                old(self).primitive.dec(old(self).buffer@),
                old(self).iv@,
            ),
    {
        let snapshot = slice_to_vec(self.buffer.data.as_slice());
        let mut block = self.buffer.extract();
        self.primitive.decrypt(&mut block);
        xor_into(&mut block, self.iv.as_slice());
        self.iv = snapshot;
        self.out.append(&mut block);
    }

    /// Consumes all of `buf`, decrypting and chaining each block completed
    /// along the way, and returns the number of bytes consumed (always all).
    pub fn write(&mut self, buf: &[u8]) -> (r: usize)
        requires
            old(self).wf(),
        ensures
            final(self).wf(),
            final(self).primitive == old(self).primitive,
            final(self).buffer.cap == old(self).buffer.cap,
            r == buf@.len(),
            ({
                let b = old(self).primitive.bsize();
                let total = old(self).buffer@ + buf@;
                let k = if total.len() == 0 {
                    0int
                } else {
                    b * ((total.len() - 1) / b)
                };
                &&& final(self).buffer@ == total.skip(k)
                &&& final(self).iv@ == cbc_dec_iv(
                    &old(self).primitive,
                    old(self).iv@,
                    total.take(k),
                )
                &&& final(self).out@ == old(self).out@ + cbc_dec_out(
                    &old(self).primitive,
                    old(self).iv@,
                    total.take(k),
                )
            }),
    {
        let ghost b = self.primitive.bsize();
        let ghost iv0 = self.iv@;
        let ghost total = self.buffer@ + buf@;
        let ghost mut processed: int = 0;
        let mut written: usize = 0;
        proof {
            assert(total.subrange(0, old(self).buffer@.len() as int) =~= old(self).buffer@);
            assert(total.take(0) =~= Seq::<u8>::empty());
            assert(old(self).out@ + cbc_dec_out(&old(self).primitive, iv0, total.take(0)) =~= old(
                self,
            ).out@);
        }
        while written < buf.len()
            invariant
                self.wf(),
                self.primitive == old(self).primitive,
                self.buffer.cap == old(self).buffer.cap,
                b == self.primitive.bsize(),
                1 <= b,
                written <= buf@.len(),
                total == old(self).buffer@ + buf@,
                0 <= processed,
                processed % b == 0,
                processed == 0 || self.buffer@.len() > 0,
                processed + self.buffer@.len() == old(self).buffer@.len() + written,
                self.buffer@ == total.subrange(
                    processed,
                    old(self).buffer@.len() + written as int,
                ),
                iv0 == old(self).iv@,
                self.iv@ == cbc_dec_iv(&self.primitive, iv0, total.take(processed)),
                self.out@ == old(self).out@ + cbc_dec_out(
                    &self.primitive,
                    iv0,
                    total.take(processed),
                ),
            decreases buf@.len() - written,
        {
            let ghost consumed = old(self).buffer@.len() + written as int;
            if self.buffer.is_full() {
                proof {
                    lemma_cbc_dec_split(&self.primitive, iv0, total.take(processed + b), processed);
                    assert(total.take(processed + b).take(processed) =~= total.take(processed));
                    assert(total.take(processed + b).skip(processed) =~= self.buffer@);
                    assert(self.buffer@.take(b) =~= self.buffer@);
                    assert(self.buffer@.skip(b) =~= Seq::<u8>::empty());
                    let p = xor_bytes(self.primitive.dec(self.buffer@), self.iv@);
                    assert(cbc_dec_out(&self.primitive, self.buffer@, Seq::<u8>::empty())
                        == Seq::<u8>::empty());
                    assert(cbc_dec_iv(&self.primitive, self.buffer@, Seq::<u8>::empty())
                        == self.buffer@);
                    assert(cbc_dec_out(&self.primitive, iv0, total.take(processed + b))
                        =~= cbc_dec_out(&self.primitive, iv0, total.take(processed)) + p);
                    assert(cbc_dec_iv(&self.primitive, iv0, total.take(processed + b))
                        == self.buffer@);
                }
                self.process_buffer();
                proof {
                    lemma_mod_add_multiples_vanish(processed, b);
                    processed = processed + b;
                }
            }
            let n = self.buffer.push_slice(slice_subrange(buf, written, buf.len()));
            proof {
                assert(buf@.skip(written as int).take(n as int) =~= buf@.subrange(
                    written as int,
                    written + n,
                ));
                assert(self.buffer@ =~= total.subrange(processed, consumed + n));
            }
            written = written + n;
        }
        proof {
            let k = if total.len() == 0 {
                0int
            } else {
                b * ((total.len() - 1) / b)
            };
            if processed < total.len() {
                lemma_chunk_index(total.len() as int, b, processed);
            } else {
                assert(processed == 0);
                assert(total.len() == 0);
            }
            assert(k == processed);
            assert(self.buffer@ =~= total.skip(k));
        }
        written
    }

    /// Declares the end of the stream and hands over the accumulated output;
    /// fails with `IncompleteBlock` exactly when the total input length was
    /// not a multiple of the block size.
    pub fn finalize(self) -> (r: Result<Vec<u8>, BlockCipherError>)
        requires
            self.wf(),
        ensures
            ({
                let b = self.primitive.bsize();
                if self.buffer@.len() == 0 || self.buffer@.len() == b {
                    r is Ok && r->Ok_0@ == self.out@ + cbc_dec_out(
                        &self.primitive,
                        self.iv@,
                        self.buffer@,
                    )
                } else {
                    r == Err::<Vec<u8>, BlockCipherError>(
                        BlockCipherError::IncompleteBlock((b - self.buffer@.len()) as usize),
                    )
                }
            }),
    {
        let mut this = self;
        let ghost b = this.primitive.bsize();
        if this.buffer.is_full() {
            proof {
                assert(this.buffer@.take(b) =~= this.buffer@);
                assert(this.buffer@.skip(b) =~= Seq::<u8>::empty());
                let p = xor_bytes(this.primitive.dec(this.buffer@), this.iv@);
                assert(cbc_dec_out(&this.primitive, this.buffer@, Seq::<u8>::empty())
                    == Seq::<u8>::empty());
                assert(cbc_dec_out(&this.primitive, this.iv@, this.buffer@) =~= p);
            }
            this.process_buffer();
            proof {
                assert(this.out@ =~= self.out@ + cbc_dec_out(
                    &self.primitive,
                    self.iv@,
                    self.buffer@,
                ));
            }
        }
        if !this.buffer.is_empty() {
            let missing = this.buffer.capacity() - this.buffer.len();
            return Err(BlockCipherError::IncompleteBlock(missing));
        }
        proof {
            assert(this.out@ =~= self.out@ + cbc_dec_out(&self.primitive, self.iv@, self.buffer@));
        }
        Ok(this.out)
    }

    /// Independent end-of-stream alignment check: fails with
    /// `IncompleteBlock` exactly when the working buffer holds a partial
    /// block, and never changes the engine.
    pub fn flush(&mut self) -> (r: Result<(), BlockCipherError>)
        requires
            old(self).wf(),
        ensures
            *final(self) == *old(self),
            ({
                let b = old(self).primitive.bsize();
                let fill = old(self).buffer@.len();
                if fill == 0 || fill == b {
                    r is Ok
                } else {
                    r == Err::<(), BlockCipherError>(
                        BlockCipherError::IncompleteBlock((b - fill) as usize),
                    )
                }
            }),
    {
        if !self.buffer.is_full() && !self.buffer.is_empty() {
            let missing = self.buffer.capacity() - self.buffer.len();
            return Err(BlockCipherError::IncompleteBlock(missing));
        }
        Ok(())
    }
}

} // verus!
