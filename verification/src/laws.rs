//! Laws of the operating modes, stated over the mathematical model and any
//! primitives: round trips, per-block characterisations, chaining
//! diffusion, and determinism versus chaining.

use crate::model::{
    cbc_dec_out, cbc_enc_out, ecb_dec_out, ecb_enc_out, lemma_aligned_positive,
};
use crate::traits::{BlockDecrypt, BlockEncrypt};
use crate::xorbuf::{lemma_xor_bytes_cancel, lemma_xor_bytes_injective, xor_bytes};
use vstd::arithmetic::div_mod::lemma_mod_multiples_basic;
use vstd::arithmetic::mul::lemma_mul_inequality;
use vstd::prelude::*;

verus! {

/// The `j`-th block of a sequence partitioned into blocks of `b` bytes.
pub open spec fn block_of(s: Seq<u8>, b: int, j: int) -> Seq<u8>
    recommends
        1 <= b,
        0 <= j,
        (j + 1) * b <= s.len(),
{
    s.subrange(j * b, (j + 1) * b)
}

/// ECB encryption of block-aligned data yields output of the same length,
/// whenever the primitive maps blocks to blocks.
pub proof fn lemma_ecb_enc_len<E: BlockEncrypt>(e: &E, data: Seq<u8>)
    requires
        1 <= e.bsize(),
        data.len() as int % e.bsize() == 0,
        forall|x: Seq<u8>| x.len() == e.bsize() ==> (#[trigger] e.enc(x)).len() == e.bsize(),
    ensures
        ecb_enc_out(e, data).len() == data.len(),
    decreases data.len(),
{
    let b = e.bsize();
    if data.len() != 0 {
        lemma_aligned_positive(data.len() as int, b);
        assert(data.take(b).len() == b);
        lemma_ecb_enc_len(e, data.skip(b));
    }
}

/// CBC encryption of block-aligned data yields output of the same length,
/// whenever the primitive maps blocks to blocks.
pub proof fn lemma_cbc_enc_len<E: BlockEncrypt>(e: &E, iv: Seq<u8>, data: Seq<u8>)
    requires
        1 <= e.bsize(),
        data.len() as int % e.bsize() == 0,
        forall|x: Seq<u8>| x.len() == e.bsize() ==> (#[trigger] e.enc(x)).len() == e.bsize(),
    ensures
        cbc_enc_out(e, iv, data).len() == data.len(),
    decreases data.len(),
{
    let b = e.bsize();
    if data.len() != 0 {
        lemma_aligned_positive(data.len() as int, b);
        assert(xor_bytes(data.take(b), iv).len() == b);
        lemma_cbc_enc_len(e, e.enc(xor_bytes(data.take(b), iv)), data.skip(b));
    }
}

/// CBC decryption of block-aligned data yields output of the same length,
/// whenever the primitive maps blocks to blocks.
pub proof fn lemma_cbc_dec_len<D: BlockDecrypt>(d: &D, iv: Seq<u8>, data: Seq<u8>)
    requires
        1 <= d.bsize(),
        data.len() as int % d.bsize() == 0,
        forall|x: Seq<u8>| x.len() == d.bsize() ==> (#[trigger] d.dec(x)).len() == d.bsize(),
    ensures
        cbc_dec_out(d, iv, data).len() == data.len(),
    decreases data.len(),
{
    let b = d.bsize();
    if data.len() != 0 {
        lemma_aligned_positive(data.len() as int, b);
        assert(d.dec(data.take(b)).len() == b);
        lemma_cbc_dec_len(d, data.take(b), data.skip(b));
    }
}

/// Round trip: ECB decryption inverts ECB encryption on block-aligned data,
/// whenever the decryption primitive inverts the encryption primitive and
/// the encryption primitive maps blocks to blocks.  `ecb_enc_out` and
/// `ecb_dec_out` are exactly what the streaming engines' contracts say they
/// accumulate and hand over on finalize.
pub proof fn lemma_ecb_round_trip<E: BlockEncrypt, D: BlockDecrypt>(e: &E, d: &D, data: Seq<u8>)
    requires
        1 <= e.bsize(),
        d.bsize() == e.bsize(),
        data.len() as int % e.bsize() == 0,
        forall|x: Seq<u8>| x.len() == e.bsize() ==> (#[trigger] e.enc(x)).len() == e.bsize(),
        forall|x: Seq<u8>| x.len() == e.bsize() ==> d.dec(#[trigger] e.enc(x)) == x,
    ensures
        ecb_dec_out(d, ecb_enc_out(e, data)) == data,
    decreases data.len(),
{
    let b = e.bsize();
    if data.len() == 0 {
        assert(ecb_dec_out(d, ecb_enc_out(e, data)) =~= data);
    } else {
        lemma_aligned_positive(data.len() as int, b);
        let p0 = data.take(b);
        let rest = data.skip(b);
        let c0 = e.enc(p0);
        assert(p0.len() == b);
        assert(c0.len() == b);
        let encd = c0 + ecb_enc_out(e, rest);
        assert(ecb_enc_out(e, data) == encd);
        assert(encd.take(b) =~= c0);
        assert(encd.skip(b) =~= ecb_enc_out(e, rest));
        lemma_ecb_round_trip(e, d, rest);
        assert(ecb_dec_out(d, encd) =~= data);
    }
}

/// Round trip: CBC decryption under the same initialisation vector inverts
/// CBC encryption on block-aligned data, whenever the decryption primitive
/// inverts the encryption primitive and the encryption primitive maps
/// blocks to blocks.  `cbc_enc_out` and `cbc_dec_out` are exactly what the
/// streaming engines' contracts say they accumulate and hand over on
/// finalize.
pub proof fn lemma_cbc_round_trip<E: BlockEncrypt, D: BlockDecrypt>(
    e: &E,
    d: &D,
    iv: Seq<u8>,
    data: Seq<u8>,
)
    requires
        1 <= e.bsize(),
        d.bsize() == e.bsize(),
        iv.len() == e.bsize(),
        data.len() as int % e.bsize() == 0,
        forall|x: Seq<u8>| x.len() == e.bsize() ==> (#[trigger] e.enc(x)).len() == e.bsize(),
        forall|x: Seq<u8>| x.len() == e.bsize() ==> d.dec(#[trigger] e.enc(x)) == x,
    ensures
        cbc_dec_out(d, iv, cbc_enc_out(e, iv, data)) == data,
    decreases data.len(),
{
    let b = e.bsize();
    if data.len() == 0 {
        assert(cbc_dec_out(d, iv, cbc_enc_out(e, iv, data)) =~= data);
    } else {
        lemma_aligned_positive(data.len() as int, b);
        let p0 = data.take(b);
        let rest = data.skip(b);
        let x = xor_bytes(p0, iv);
        assert(x.len() == b);
        let c0 = e.enc(x);
        assert(c0.len() == b);
        let encd = c0 + cbc_enc_out(e, c0, rest);
        assert(cbc_enc_out(e, iv, data) == encd);
        assert(encd.take(b) =~= c0);
        assert(encd.skip(b) =~= cbc_enc_out(e, c0, rest));
        assert(d.dec(c0) == x);
        lemma_xor_bytes_cancel(p0, iv);
        assert(xor_bytes(d.dec(c0), iv) == p0);
        lemma_cbc_round_trip(e, d, c0, rest);
        assert(cbc_dec_out(d, iv, encd) =~= data);
    }
}

/// Each ECB output block is the primitive applied to the same input block.
pub proof fn lemma_ecb_enc_block<E: BlockEncrypt>(e: &E, data: Seq<u8>, j: int)
    requires
        1 <= e.bsize(),
        data.len() as int % e.bsize() == 0,
        forall|x: Seq<u8>| x.len() == e.bsize() ==> (#[trigger] e.enc(x)).len() == e.bsize(),
        0 <= j,
        (j + 1) * e.bsize() <= data.len(),
    ensures
        block_of(ecb_enc_out(e, data), e.bsize(), j) == e.enc(block_of(data, e.bsize(), j)),
    decreases j,
{
    let b = e.bsize();
    assert(0 < (j + 1) * b) by (nonlinear_arith)
        requires
            0 <= j,
            1 <= b,
    ;
    lemma_aligned_positive(data.len() as int, b);
    let c0 = e.enc(data.take(b));
    assert(data.take(b).len() == b);
    let rest = data.skip(b);
    let out = c0 + ecb_enc_out(e, rest);
    assert(ecb_enc_out(e, data) == out);
    lemma_ecb_enc_len(e, data);
    lemma_ecb_enc_len(e, rest);
    if j == 0 {
        assert(0 * b == 0 && 1 * b == b) by (nonlinear_arith);
        assert(block_of(out, b, 0) =~= c0);
        assert(block_of(data, b, 0) =~= data.take(b));
    } else {
        assert(j * b == (j + 1) * b - b) by (nonlinear_arith);
        assert((j - 1) * b == j * b - b) by (nonlinear_arith);
        lemma_ecb_enc_block(e, rest, j - 1);
        assert(block_of(out, b, j) =~= block_of(ecb_enc_out(e, rest), b, j - 1));
        assert(block_of(data, b, j) =~= block_of(rest, b, j - 1));
    }
}

/// Each CBC ciphertext block is the primitive applied to the same plaintext
/// block combined with the previous ciphertext block (the initialisation
/// vector for the first).
pub proof fn lemma_cbc_enc_block<E: BlockEncrypt>(e: &E, iv: Seq<u8>, data: Seq<u8>, j: int)
    requires
        1 <= e.bsize(),
        data.len() as int % e.bsize() == 0,
        forall|x: Seq<u8>| x.len() == e.bsize() ==> (#[trigger] e.enc(x)).len() == e.bsize(),
        0 <= j,
        (j + 1) * e.bsize() <= data.len(),
    ensures
        ({
            let ct = cbc_enc_out(e, iv, data);
            block_of(ct, e.bsize(), j) == e.enc(
                xor_bytes(
                    block_of(data, e.bsize(), j),
                    if j == 0 {
                        iv
                    } else {
                        block_of(ct, e.bsize(), j - 1)
                    },
                ),
            )
        }),
    decreases j,
{
    let b = e.bsize();
    assert(0 < (j + 1) * b) by (nonlinear_arith)
        requires
            0 <= j,
            1 <= b,
    ;
    lemma_aligned_positive(data.len() as int, b);
    let c0 = e.enc(xor_bytes(data.take(b), iv));
    assert(xor_bytes(data.take(b), iv).len() == b);
    let rest = data.skip(b);
    let ct = c0 + cbc_enc_out(e, c0, rest);
    assert(cbc_enc_out(e, iv, data) == ct);
    lemma_cbc_enc_len(e, iv, data);
    lemma_cbc_enc_len(e, c0, rest);
    if j == 0 {
        assert(0 * b == 0 && 1 * b == b) by (nonlinear_arith);
        assert(block_of(ct, b, 0) =~= c0);
        assert(block_of(data, b, 0) =~= data.take(b));
    } else {
        assert(j * b == (j + 1) * b - b) by (nonlinear_arith);
        assert((j - 1) * b == j * b - b) by (nonlinear_arith);
        lemma_cbc_enc_block(e, c0, rest, j - 1);
        let ct1 = cbc_enc_out(e, c0, rest);
        assert(block_of(ct, b, j) =~= block_of(ct1, b, j - 1));
        assert(block_of(data, b, j) =~= block_of(rest, b, j - 1));
        if j == 1 {
            assert(0 * b == 0 && 1 * b == b) by (nonlinear_arith);
            assert(block_of(ct, b, 0) =~= c0);
        } else {
            assert((j - 2) * b == (j - 1) * b - b) by (nonlinear_arith);
            assert(block_of(ct, b, j - 1) =~= block_of(ct1, b, j - 2));
        }
    }
}

/// Each CBC decrypted block is the primitive's inverse of the same
/// ciphertext block, combined with the previous ciphertext block (the
/// initialisation vector for the first); no other block influences it.
pub proof fn lemma_cbc_dec_block<D: BlockDecrypt>(d: &D, iv: Seq<u8>, ct: Seq<u8>, j: int)
    requires
        1 <= d.bsize(),
        ct.len() as int % d.bsize() == 0,
        forall|x: Seq<u8>| x.len() == d.bsize() ==> (#[trigger] d.dec(x)).len() == d.bsize(),
        0 <= j,
        (j + 1) * d.bsize() <= ct.len(),
    ensures
        block_of(cbc_dec_out(d, iv, ct), d.bsize(), j) == xor_bytes(
            d.dec(block_of(ct, d.bsize(), j)),
            if j == 0 {
                iv
            } else {
                block_of(ct, d.bsize(), j - 1)
            },
        ),
    decreases j,
{
    let b = d.bsize();
    assert(0 < (j + 1) * b) by (nonlinear_arith)
        requires
            0 <= j,
            1 <= b,
    ;
    lemma_aligned_positive(ct.len() as int, b);
    let p0 = xor_bytes(d.dec(ct.take(b)), iv);
    assert(ct.take(b).len() == b);
    let rest = ct.skip(b);
    let out = p0 + cbc_dec_out(d, ct.take(b), rest);
    assert(cbc_dec_out(d, iv, ct) == out);
    lemma_cbc_dec_len(d, iv, ct);
    lemma_cbc_dec_len(d, ct.take(b), rest);
    if j == 0 {
        assert(0 * b == 0 && 1 * b == b) by (nonlinear_arith);
        assert(block_of(out, b, 0) =~= p0);
        assert(block_of(ct, b, 0) =~= ct.take(b));
    } else {
        assert(j * b == (j + 1) * b - b) by (nonlinear_arith);
        assert((j - 1) * b == j * b - b) by (nonlinear_arith);
        lemma_cbc_dec_block(d, ct.take(b), rest, j - 1);
        let out1 = cbc_dec_out(d, ct.take(b), rest);
        assert(block_of(out, b, j) =~= block_of(out1, b, j - 1));
        assert(block_of(ct, b, j) =~= block_of(rest, b, j - 1));
        if j == 1 {
            assert(0 * b == 0 && 1 * b == b) by (nonlinear_arith);
            assert(block_of(ct, b, 0) =~= ct.take(b));
        } else {
            assert((j - 2) * b == (j - 1) * b - b) by (nonlinear_arith);
            assert(block_of(ct, b, j - 1) =~= block_of(rest, b, j - 2));
        }
    }
}

/// Chaining diffusion: if two CBC ciphertext streams of `nb` blocks differ
/// only in block `i`, their decryptions agree on every block other than
/// `i` and `i + 1`.
pub proof fn lemma_cbc_chaining_diffusion<D: BlockDecrypt>(
    d: &D,
    iv: Seq<u8>,
    ct1: Seq<u8>,
    ct2: Seq<u8>,
    nb: int,
    i: int,
)
    requires
        1 <= d.bsize(),
        0 <= nb,
        ct1.len() == nb * d.bsize(),
        ct2.len() == nb * d.bsize(),
        forall|x: Seq<u8>| x.len() == d.bsize() ==> (#[trigger] d.dec(x)).len() == d.bsize(),
        0 <= i < nb,
        forall|j: int|
            0 <= j < nb && j != i ==> block_of(ct1, d.bsize(), j) == block_of(ct2, d.bsize(), j),
    ensures
        forall|j: int|
            0 <= j < nb && j != i && j != i + 1 ==> block_of(
                cbc_dec_out(d, iv, ct1),
                d.bsize(),
                j,
            ) == block_of(cbc_dec_out(d, iv, ct2), d.bsize(), j),
{
    let b = d.bsize();
    lemma_mod_multiples_basic(nb, b);
    assert forall|j: int| 0 <= j < nb && j != i && j != i + 1 implies block_of(
        cbc_dec_out(d, iv, ct1),
        b,
        j,
    ) == block_of(cbc_dec_out(d, iv, ct2), b, j) by {
        lemma_mul_inequality(j + 1, nb, b);
        lemma_cbc_dec_block(d, iv, ct1, j);
        lemma_cbc_dec_block(d, iv, ct2, j);
    }
}

/// Determinism: under ECB, equal plaintext blocks of one stream encrypt to
/// equal ciphertext blocks.
pub proof fn lemma_ecb_equal_blocks<E: BlockEncrypt>(
    e: &E,
    data: Seq<u8>,
    nb: int,
    i: int,
    j: int,
)
    requires
        1 <= e.bsize(),
        0 <= nb,
        data.len() == nb * e.bsize(),
        forall|x: Seq<u8>| x.len() == e.bsize() ==> (#[trigger] e.enc(x)).len() == e.bsize(),
        0 <= i < nb,
        0 <= j < nb,
        block_of(data, e.bsize(), i) == block_of(data, e.bsize(), j),
    ensures
        block_of(ecb_enc_out(e, data), e.bsize(), i) == block_of(ecb_enc_out(e, data), e.bsize(), j),
{
    let b = e.bsize();
    lemma_mod_multiples_basic(nb, b);
    lemma_mul_inequality(i + 1, nb, b);
    lemma_mul_inequality(j + 1, nb, b);
    lemma_ecb_enc_block(e, data, i);
    lemma_ecb_enc_block(e, data, j);
}

/// Chaining versus repetition: under CBC with an injective primitive, two
/// consecutive equal plaintext blocks yield equal ciphertext blocks exactly
/// when the chaining value the first was combined with already equalled the
/// first's ciphertext; wherever those differ, the repetition is broken.
pub proof fn lemma_cbc_consecutive_blocks<E: BlockEncrypt>(
    e: &E,
    iv: Seq<u8>,
    data: Seq<u8>,
    nb: int,
    i: int,
)
    requires
        1 <= e.bsize(),
        0 <= nb,
        data.len() == nb * e.bsize(),
        iv.len() == e.bsize(),
        forall|x: Seq<u8>| x.len() == e.bsize() ==> (#[trigger] e.enc(x)).len() == e.bsize(),
        forall|x: Seq<u8>, y: Seq<u8>|
            #![trigger e.enc(x), e.enc(y)]
            x.len() == e.bsize() && y.len() == e.bsize() && e.enc(x) == e.enc(y) ==> x == y,
        0 <= i,
        i + 1 < nb,
        block_of(data, e.bsize(), i) == block_of(data, e.bsize(), i + 1),
    ensures
        ({
            let ct = cbc_enc_out(e, iv, data);
            let prev = if i == 0 {
                iv
            } else {
                block_of(ct, e.bsize(), i - 1)
            };
            (block_of(ct, e.bsize(), i) == block_of(ct, e.bsize(), i + 1)) <==> (prev == block_of(
                ct,
                e.bsize(),
                i,
            ))
        }),
{
    let b = e.bsize();
    let ct = cbc_enc_out(e, iv, data);
    let p = block_of(data, b, i);
    let prev = if i == 0 {
        iv
    } else {
        block_of(ct, b, i - 1)
    };
    lemma_mod_multiples_basic(nb, b);
    lemma_mul_inequality(i + 1, nb, b);
    lemma_mul_inequality(i + 2, nb, b);
    lemma_cbc_enc_len(e, iv, data);
    assert(0 <= i * b && i * b + b == (i + 1) * b && (i + 1) * b + b == (i + 2) * b)
        by (nonlinear_arith)
        requires
            0 <= i,
            1 <= b,
    ;
    lemma_cbc_enc_block(e, iv, data, i);
    lemma_cbc_enc_block(e, iv, data, i + 1);
    let ci = block_of(ct, b, i);
    assert(p.len() == b) by {
        assert(0 <= i * b) by (nonlinear_arith)
            requires
                0 <= i,
                1 <= b,
        ;
        assert((i + 1) * b == i * b + b) by (nonlinear_arith);
    }
    assert(prev.len() == b) by {
        if i != 0 {
            assert(0 <= (i - 1) * b) by (nonlinear_arith)
                requires
                    1 <= i,
                    1 <= b,
            ;
            assert(i * b == (i - 1) * b + b) by (nonlinear_arith);
        }
    }
    assert(ci.len() == b) by {
        assert((i + 1) * b == i * b + b) by (nonlinear_arith);
    }
    assert(ci == e.enc(xor_bytes(p, prev)));
    assert(block_of(ct, b, i + 1) == e.enc(xor_bytes(p, ci)));
    if block_of(ct, b, i) == block_of(ct, b, i + 1) {
        assert(xor_bytes(p, prev).len() == b);
        assert(xor_bytes(p, ci).len() == b);
        assert(xor_bytes(p, prev) == xor_bytes(p, ci));
        lemma_xor_bytes_injective(p, prev, ci);
    }
}

} // verus!
