//! Arithmetic on forest sizes: a forest of `f` leaves is a sequence of perfect
//! trees, one for each set bit of `f`, the largest first.
use vstd::arithmetic::power2::{lemma2_to64, lemma_pow2_pos, lemma_pow2_unfold, pow2};
use vstd::prelude::*;

verus! {

/// Number of trailing zero bits of `f` (zero for `f == 0`).
pub open spec fn trailing_zeros(f: nat) -> nat
    decreases f,
{
    if f == 0 || f % 2 == 1 {
        0
    } else {
        1 + trailing_zeros(f / 2)
    }
}

/// Size of the smallest tree of a forest of `f` leaves: the lowest set bit of `f`.
pub open spec fn lowest_tree(f: nat) -> nat {
    pow2(trailing_zeros(f))
}

/// `f` with its trailing zero bits removed.
pub open spec fn odd_part(f: nat) -> nat
    decreases f,
{
    if f == 0 || f % 2 == 1 {
        f
    } else {
        odd_part(f / 2)
    }
}

/// Number of set bits of `f`: the number of peaks of a forest of `f` leaves.
pub open spec fn popcount(f: nat) -> nat
    decreases f,
{
    if f == 0 {
        0
    } else {
        f % 2 + popcount(f / 2)
    }
}

/// A non-empty forest splits into its odd part times its smallest tree.
pub proof fn lemma_lowest_tree(f: nat)
    requires
        f > 0,
    ensures
        f == odd_part(f) * lowest_tree(f),
        odd_part(f) % 2 == 1,
        1 <= lowest_tree(f) <= f,
    decreases f,
{
    if f % 2 == 1 {
        lemma2_to64();
        assert(trailing_zeros(f) == 0);
        assert(odd_part(f) == f);
        assert(lowest_tree(f) == 1);
    } else {
        let h = f / 2;
        lemma_lowest_tree(h);
        lemma_pow2_step(trailing_zeros(h));
        let l = lowest_tree(h);
        let q = odd_part(h);
        assert(lowest_tree(f) == 2 * l);
        assert(f == 2 * h);
        assert(h == q * l);
        assert(f == q * (2 * l)) by (nonlinear_arith)
            requires
                f == 2 * h,
                h == q * l,
        ;
        assert(q * l >= l) by (nonlinear_arith)
            requires
                q % 2 == 1,
                l >= 1,
        ;
    }
}

/// Removing the smallest tree removes exactly one peak.
pub proof fn lemma_popcount_without_lowest(f: nat)
    requires
        f > 0,
    ensures
        popcount((f - lowest_tree(f)) as nat) + 1 == popcount(f),
    decreases f,
{
    if f % 2 == 1 {
        lemma2_to64();
        let g = (f - 1) as nat;
        if g > 0 {
            assert(g % 2 == 0 && g / 2 == f / 2);
        }
    } else {
        let h = f / 2;
        lemma_popcount_without_lowest(h);
        lemma_lowest_tree(h);
        lemma_pow2_step(trailing_zeros(h));
        let g = (h - lowest_tree(h)) as nat;
        assert(f - lowest_tree(f) == 2 * g);
        lemma_popcount_double(g);
    }
}

/// Doubling a number keeps its set bits.
pub proof fn lemma_popcount_double(g: nat)
    ensures
        popcount(2 * g) == popcount(g),
{
    if g > 0 {
        assert((2 * g) % 2 == 0 && (2 * g) / 2 == g);
    }
}

/// An even, non-zero `q` has one trailing zero more than `q / 2`, and the same odd part.
pub proof fn lemma_trailing_zeros_step(q: nat)
    requires
        q > 0,
        q % 2 == 0,
    ensures
        trailing_zeros(q) == 1 + trailing_zeros(q / 2),
        odd_part(q) == odd_part(q / 2),
{
}

/// `pow2` stays positive and doubles at each step.
pub proof fn lemma_pow2_step(k: nat)
    ensures
        pow2(k + 1) == 2 * pow2(k),
        pow2(k) >= 1,
{
    lemma_pow2_unfold(k + 1);
    lemma_pow2_pos(k);
}

/// An odd number shifted left by `k` has `k` trailing zeros.
pub proof fn lemma_odd_shift(f: nat, k: nat)
    requires
        f % 2 == 1,
    ensures
        trailing_zeros(f * pow2(k)) == k,
        lowest_tree(f * pow2(k)) == pow2(k),
        f * pow2(k) > 0,
    decreases k,
{
    vstd::arithmetic::power2::lemma2_to64();
    if k == 0 {
        assert(f * pow2(0) == f);
    } else {
        let j = (k - 1) as nat;
        lemma_odd_shift(f, j);
        lemma_pow2_step(j);
        let g = f * pow2(k);
        assert(g == 2 * (f * pow2(j))) by (nonlinear_arith)
            requires
                pow2(k) == 2 * pow2(j),
                g == f * pow2(k),
        ;
        assert(g % 2 == 0 && g / 2 == f * pow2(j));
    }
}

} // verus!
