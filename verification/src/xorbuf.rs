//! Byte-wise exclusive-or over equal-length byte sequences, the combining
//! step of CBC chaining.

use vstd::prelude::*;

verus! {

/// Pointwise exclusive-or of two equal-length byte sequences.
pub open spec fn xor_bytes(a: Seq<u8>, b: Seq<u8>) -> Seq<u8>
    recommends
        a.len() == b.len(),
{
    Seq::new(a.len(), |i: int| a[i] ^ b[i])
}

/// Exclusive-or is its own inverse: combining with the same mask twice
/// restores the original sequence.
pub proof fn lemma_xor_bytes_cancel(a: Seq<u8>, b: Seq<u8>)
    requires
        a.len() == b.len(),
    ensures
        xor_bytes(xor_bytes(a, b), b) == a,
{
    assert forall|i: int| 0 <= i < a.len() implies xor_bytes(xor_bytes(a, b), b)[i] == a[i] by {
        let x = a[i];
        let y = b[i];
        assert((x ^ y) ^ y == x) by (bit_vector);
    }
    assert(xor_bytes(xor_bytes(a, b), b) =~= a);
}

/// Masking with the same sequence is injective: equal results mean the
/// masked sequences were equal.
pub proof fn lemma_xor_bytes_injective(p: Seq<u8>, a: Seq<u8>, c: Seq<u8>)
    requires
        a.len() == p.len(),
        c.len() == p.len(),
        xor_bytes(p, a) == xor_bytes(p, c),
    ensures
        a == c,
{
    assert forall|i: int| 0 <= i < a.len() implies a[i] == c[i] by {
        let x = p[i];
        let y = a[i];
        let z = c[i];
        assert(xor_bytes(p, a)[i] == xor_bytes(p, c)[i]);
        assert(xor_bytes(p, a)[i] == p[i] ^ a[i]);
        assert(xor_bytes(p, c)[i] == p[i] ^ c[i]);
        assert(x ^ y == x ^ z);
        assert(y == z) by (bit_vector)
            requires
                x ^ y == x ^ z,
        ;
    }
    assert(a =~= c);
}

/// Replaces `a` with the pointwise exclusive-or of `a` and `b`.
pub fn xor_into(a: &mut Vec<u8>, b: &[u8])
    requires
        old(a)@.len() == b@.len(),
    ensures
        final(a)@ == xor_bytes(old(a)@, b@),
{
    let n = a.len();
    let mut i: usize = 0;
    while i < n
        invariant
            n == a@.len(),
            n == b@.len(),
            n == old(a)@.len(),
            i <= n,
            forall|j: int| 0 <= j < i ==> a@[j] == old(a)@[j] ^ b@[j],
            forall|j: int| i <= j < n ==> a@[j] == old(a)@[j],
        decreases n - i,
    {
        let x = a[i] ^ b[i];
        a.set(i, x);
        i = i + 1;
    }
    assert(a@ =~= xor_bytes(old(a)@, b@));
}

} // verus!
