//! Square sets as 64-bit masks: bit `i` stands for the square in column
//! `i % 8` and row `i / 8`. The lemmas here reduce every mask operation the
//! engine performs to membership of single squares.

use vstd::prelude::*;

verus! {

/// True when bit `i` of `m` is set; false for any `i` outside `0..64`.
pub open spec fn bit64(m: u64, i: int) -> bool {
    0 <= i < 64 && (m >> (i as u64)) & 1u64 == 1u64
}

/// No bit of the empty mask is set.
pub proof fn lemma_bit_zero(i: int)
    ensures
        !bit64(0u64, i),
{
    if 0 <= i < 64 {
        let iu = i as u64;
        assert((0u64 >> iu) & 1u64 == 0u64) by (bit_vector);
    }
}

/// A bit of a union is set exactly when it is set on either side.
pub proof fn lemma_bit_or(a: u64, b: u64, i: int)
    ensures
        bit64(a | b, i) <==> bit64(a, i) || bit64(b, i),
{
    if 0 <= i < 64 {
        let iu = i as u64;
        assert((((a | b) >> iu) & 1u64 == 1u64) <==> ((a >> iu) & 1u64 == 1u64) || ((b >> iu)
            & 1u64 == 1u64)) by (bit_vector);
    }
}

/// A bit of an intersection is set exactly when it is set on both sides.
pub proof fn lemma_bit_and(a: u64, b: u64, i: int)
    ensures
        bit64(a & b, i) <==> bit64(a, i) && bit64(b, i),
{
    if 0 <= i < 64 {
        let iu = i as u64;
        assert((((a & b) >> iu) & 1u64 == 1u64) <==> ((a >> iu) & 1u64 == 1u64) && ((b >> iu)
            & 1u64 == 1u64)) by (bit_vector);
    }
}

/// A bit of a complement is set exactly when it is clear in the operand,
/// as long as the index is on the board.
pub proof fn lemma_bit_not(a: u64, i: int)
    ensures
        bit64(!a, i) <==> 0 <= i < 64 && !bit64(a, i),
{
    if 0 <= i < 64 {
        let iu = i as u64;
        assert((((!a) >> iu) & 1u64 == 1u64) <==> !((a >> iu) & 1u64 == 1u64)) by (bit_vector)
            requires
                iu < 64,
        ;
    }
}

/// The mask `1 << k` holds exactly the square `k`.
pub proof fn lemma_bit_single(k: u64, i: int)
    requires
        k < 64,
    ensures
        bit64(1u64 << k, i) <==> i == k,
{
    if 0 <= i < 64 {
        let iu = i as u64;
        assert((((1u64 << k) >> iu) & 1u64 == 1u64) <==> iu == k) by (bit_vector)
            requires
                k < 64,
                iu < 64,
        ;
    }
}

/// A bit of an exclusive or is set exactly when the two sides differ.
pub proof fn lemma_bit_xor(a: u64, b: u64, i: int)
    ensures
        bit64(a ^ b, i) <==> 0 <= i < 64 && bit64(a, i) != bit64(b, i),
{
    if 0 <= i < 64 {
        let iu = i as u64;
        assert((((a ^ b) >> iu) & 1u64 == 1u64) <==> ((a >> iu) & 1u64 == 1u64) != ((b >> iu)
            & 1u64 == 1u64)) by (bit_vector)
            requires
                iu < 64,
        ;
    }
}

/// Two masks that agree on every square are equal.
pub proof fn lemma_bit_ext(a: u64, b: u64)
    requires
        forall|i: int| 0 <= i < 64 ==> #[trigger] bit64(a, i) == bit64(b, i),
    ensures
        a == b,
{
    if a != b {
        assert(a ^ b != 0) by (bit_vector)
            requires
                a != b,
        ;
        vstd::std_specs::bits::axiom_u64_trailing_zeros(a ^ b);
        let t = vstd::std_specs::bits::u64_trailing_zeros(a ^ b) as int;
        assert(t < 64);
        assert(bit64(a ^ b, t));
        lemma_bit_xor(a, b, t);
        assert(bit64(a, t) == bit64(b, t));
    }
}

/// Intersecting with the empty mask leaves nothing.
pub proof fn lemma_and_zero(m: u64)
    ensures
        m & 0u64 == 0u64,
        0u64 & m == 0u64,
{
    assert(m & 0u64 == 0u64 && 0u64 & m == 0u64) by (bit_vector);
}

/// Two masks intersect exactly when they share a square.
pub proof fn lemma_and_nonzero(a: u64, b: u64)
    ensures
        (a & b != 0) <==> exists|i: int| bit64(a, i) && bit64(b, i),
{
    if a & b != 0 {
        vstd::std_specs::bits::axiom_u64_trailing_zeros(a & b);
        let t = vstd::std_specs::bits::u64_trailing_zeros(a & b) as int;
        assert(t < 64);
        assert(bit64(a & b, t));
        lemma_bit_and(a, b, t);
        assert(bit64(a, t) && bit64(b, t));
    }
    if exists|i: int| bit64(a, i) && bit64(b, i) {
        let i = choose|i: int| bit64(a, i) && bit64(b, i);
        lemma_bit_and(a, b, i);
        assert(bit64(a & b, i));
        lemma_bit_zero(i);
        assert(a & b != 0);
    }
}

/// Intersecting with a single-square mask tests that one bit.
pub proof fn lemma_single_test(m: u64, k: u64)
    requires
        k < 64,
    ensures
        (m & (1u64 << k) != 0) <==> bit64(m, k as int),
{
    assert((m & (1u64 << k) != 0) <==> ((m >> k) & 1u64 == 1u64)) by (bit_vector)
        requires
            k < 64,
    ;
}

} // verus!
