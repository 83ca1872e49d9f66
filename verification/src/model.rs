//! Mathematical model of the operating modes: what a stream of complete
//! blocks encrypts or decrypts to, and how the chaining value evolves.
//!
//! Each function consumes leading complete blocks of `data` and ignores a
//! trailing partial block, matching the engines, which keep such a remainder
//! buffered.  The split lemmas let a proof cut a stream at any block
//! boundary, which is how the engines' incremental writes are related to
//! these whole-stream definitions.

use crate::traits::{BlockDecrypt, BlockEncrypt};
use crate::xorbuf::xor_bytes;
use vstd::arithmetic::div_mod::{
    lemma_fundamental_div_mod, lemma_fundamental_div_mod_converse_div, lemma_mod_sub_multiples_vanish,
    lemma_small_mod,
};
use vstd::prelude::*;

verus! {

/// ECB encryption of every leading complete block of `data`.
pub open spec fn ecb_enc_out<T: BlockEncrypt>(t: &T, data: Seq<u8>) -> Seq<u8>
    decreases data.len(),
{
    if t.bsize() < 1 || data.len() < t.bsize() {
        Seq::empty()
    } else {
        t.enc(data.take(t.bsize())) + ecb_enc_out(t, data.skip(t.bsize()))
    }
}

/// ECB decryption of every leading complete block of `data`.
pub open spec fn ecb_dec_out<T: BlockDecrypt>(t: &T, data: Seq<u8>) -> Seq<u8>
    decreases data.len(),
{
    if t.bsize() < 1 || data.len() < t.bsize() {
        Seq::empty()
    } else {
        t.dec(data.take(t.bsize())) + ecb_dec_out(t, data.skip(t.bsize()))
    }
}

/// CBC encryption of every leading complete block of `data`, chained from
/// `iv`: each plaintext block is combined with the previous ciphertext block
/// (initially `iv`) before the primitive transforms it.
pub open spec fn cbc_enc_out<T: BlockEncrypt>(t: &T, iv: Seq<u8>, data: Seq<u8>) -> Seq<u8>
    decreases data.len(),
{
    if t.bsize() < 1 || data.len() < t.bsize() {
        Seq::empty()
    } else {
        let c = t.enc(xor_bytes(data.take(t.bsize()), iv));
        c + cbc_enc_out(t, c, data.skip(t.bsize()))
    }
}

/// The chaining value after CBC-encrypting every leading complete block of
/// `data`: the last ciphertext block, or `iv` itself for less than one block.
pub open spec fn cbc_enc_iv<T: BlockEncrypt>(t: &T, iv: Seq<u8>, data: Seq<u8>) -> Seq<u8>
    decreases data.len(),
{
    if t.bsize() < 1 || data.len() < t.bsize() {
        iv
    } else {
        cbc_enc_iv(t, t.enc(xor_bytes(data.take(t.bsize()), iv)), data.skip(t.bsize()))
    }
}

/// CBC decryption of every leading complete block of `data`, chained from
/// `iv`: each ciphertext block is transformed by the primitive and then
/// combined with the previous ciphertext block (initially `iv`).
pub open spec fn cbc_dec_out<T: BlockDecrypt>(t: &T, iv: Seq<u8>, data: Seq<u8>) -> Seq<u8>
    decreases data.len(),
{
    if t.bsize() < 1 || data.len() < t.bsize() {
        Seq::empty()
    } else {
        xor_bytes(t.dec(data.take(t.bsize())), iv) + cbc_dec_out(
            t,
            data.take(t.bsize()),
            data.skip(t.bsize()),
        )
    }
}

/// The chaining value after CBC-decrypting every leading complete block of
/// `data`: the last ciphertext block itself, or `iv` for less than one block.
pub open spec fn cbc_dec_iv<T: BlockDecrypt>(t: &T, iv: Seq<u8>, data: Seq<u8>) -> Seq<u8>
    decreases data.len(),
{
    if t.bsize() < 1 || data.len() < t.bsize() {
        iv
    } else {
        cbc_dec_iv(t, data.take(t.bsize()), data.skip(t.bsize()))
    }
}

/// A positive multiple of the block size is at least one block, and one
/// block less is still a multiple.
pub(crate) proof fn lemma_aligned_positive(p: int, b: int)
    requires
        1 <= b,
        0 < p,
        p % b == 0,
    ensures
        b <= p,
        (p - b) % b == 0,
{
    if p < b {
        lemma_small_mod(p as nat, b as nat);
    }
    lemma_mod_sub_multiples_vanish(p, b);
}

/// A block-aligned prefix length `processed` with less than one full block
/// beyond it is exactly the largest aligned prefix of `total` bytes.
pub(crate) proof fn lemma_chunk_index(total: int, b: int, processed: int)
    requires
        1 <= b,
        0 <= processed,
        processed % b == 0,
        processed < total <= processed + b,
    ensures
        processed == b * ((total - 1) / b),
{
    let q = processed / b;
    lemma_fundamental_div_mod(processed, b);
    assert(processed == b * q);
    lemma_fundamental_div_mod_converse_div(total - 1, b, q, total - 1 - processed);
}

/// Cutting an ECB-encrypted stream at an aligned point splits its output.
pub proof fn lemma_ecb_enc_split<T: BlockEncrypt>(t: &T, data: Seq<u8>, p: int)
    requires
        1 <= t.bsize(),
        0 <= p <= data.len(),
        p % t.bsize() == 0,
    ensures
        ecb_enc_out(t, data) == ecb_enc_out(t, data.take(p)) + ecb_enc_out(t, data.skip(p)),
    decreases p,
{
    let b = t.bsize();
    if p == 0 {
        assert(data.skip(0) =~= data);
        assert(ecb_enc_out(t, data.take(p)) + ecb_enc_out(t, data.skip(p)) =~= ecb_enc_out(
            t,
            data,
        ));
    } else {
        lemma_aligned_positive(p, b);
        let d1 = data.skip(b);
        lemma_ecb_enc_split(t, d1, p - b);
        assert(data.take(p).take(b) =~= data.take(b));
        assert(data.take(p).skip(b) =~= d1.take(p - b));
        assert(d1.skip(p - b) =~= data.skip(p));
        assert(ecb_enc_out(t, data) =~= ecb_enc_out(t, data.take(p)) + ecb_enc_out(
            t,
            data.skip(p),
        ));
    }
}

/// Cutting an ECB-decrypted stream at an aligned point splits its output.
pub proof fn lemma_ecb_dec_split<T: BlockDecrypt>(t: &T, data: Seq<u8>, p: int)
    requires
        1 <= t.bsize(),
        0 <= p <= data.len(),
        p % t.bsize() == 0,
    ensures
        ecb_dec_out(t, data) == ecb_dec_out(t, data.take(p)) + ecb_dec_out(t, data.skip(p)),
    decreases p,
{
    let b = t.bsize();
    if p == 0 {
        assert(data.skip(0) =~= data);
        assert(ecb_dec_out(t, data.take(p)) + ecb_dec_out(t, data.skip(p)) =~= ecb_dec_out(
            t,
            data,
        ));
    } else {
        lemma_aligned_positive(p, b);
        let d1 = data.skip(b);
        lemma_ecb_dec_split(t, d1, p - b);
        assert(data.take(p).take(b) =~= data.take(b));
        assert(data.take(p).skip(b) =~= d1.take(p - b));
        assert(d1.skip(p - b) =~= data.skip(p));
        assert(ecb_dec_out(t, data) =~= ecb_dec_out(t, data.take(p)) + ecb_dec_out(
            t,
            data.skip(p),
        ));
    }
}

/// Cutting a CBC-encrypted stream at an aligned point splits its output, the
/// second part chained from the chaining value the first part ends with.
pub proof fn lemma_cbc_enc_split<T: BlockEncrypt>(t: &T, iv: Seq<u8>, data: Seq<u8>, p: int)
    requires
        1 <= t.bsize(),
        0 <= p <= data.len(),
        p % t.bsize() == 0,
    ensures
        cbc_enc_out(t, iv, data) == cbc_enc_out(t, iv, data.take(p)) + cbc_enc_out(
            t,
            cbc_enc_iv(t, iv, data.take(p)),
            data.skip(p),
        ),
        cbc_enc_iv(t, iv, data) == cbc_enc_iv(t, cbc_enc_iv(t, iv, data.take(p)), data.skip(p)),
    decreases p,
{
    let b = t.bsize();
    if p == 0 {
        assert(data.skip(0) =~= data);
        assert(cbc_enc_out(t, iv, data.take(p)) + cbc_enc_out(
            t,
            cbc_enc_iv(t, iv, data.take(p)),
            data.skip(p),
        ) =~= cbc_enc_out(t, iv, data));
    } else {
        lemma_aligned_positive(p, b);
        let c = t.enc(xor_bytes(data.take(b), iv));
        let d1 = data.skip(b);
        lemma_cbc_enc_split(t, c, d1, p - b);
        assert(data.take(p).take(b) =~= data.take(b));
        assert(data.take(p).skip(b) =~= d1.take(p - b));
        assert(d1.skip(p - b) =~= data.skip(p));
        assert(cbc_enc_out(t, iv, data) =~= cbc_enc_out(t, iv, data.take(p)) + cbc_enc_out(
            t,
            cbc_enc_iv(t, iv, data.take(p)),
            data.skip(p),
        ));
    }
}

/// Cutting a CBC-decrypted stream at an aligned point splits its output, the
/// second part chained from the chaining value the first part ends with.
pub proof fn lemma_cbc_dec_split<T: BlockDecrypt>(t: &T, iv: Seq<u8>, data: Seq<u8>, p: int)
    requires
        1 <= t.bsize(),
        0 <= p <= data.len(),
        p % t.bsize() == 0,
    ensures
        cbc_dec_out(t, iv, data) == cbc_dec_out(t, iv, data.take(p)) + cbc_dec_out(
            t,
            cbc_dec_iv(t, iv, data.take(p)),
            data.skip(p),
        ),
        cbc_dec_iv(t, iv, data) == cbc_dec_iv(t, cbc_dec_iv(t, iv, data.take(p)), data.skip(p)),
    decreases p,
{
    let b = t.bsize();
    if p == 0 {
        assert(data.skip(0) =~= data);
        assert(cbc_dec_out(t, iv, data.take(p)) + cbc_dec_out(
            t,
            cbc_dec_iv(t, iv, data.take(p)),
            data.skip(p),
        ) =~= cbc_dec_out(t, iv, data));
    } else {
        lemma_aligned_positive(p, b);
        let d1 = data.skip(b);
        lemma_cbc_dec_split(t, data.take(b), d1, p - b);
        assert(data.take(p).take(b) =~= data.take(b));
        assert(data.take(p).skip(b) =~= d1.take(p - b));
        assert(d1.skip(p - b) =~= data.skip(p));
        assert(cbc_dec_out(t, iv, data) =~= cbc_dec_out(t, iv, data.take(p)) + cbc_dec_out(
            t,
            cbc_dec_iv(t, iv, data.take(p)),
            data.skip(p),
        ));
    }
}

} // verus!
