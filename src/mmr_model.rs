//! The peaks of a Merkle Mountain Range defined directly from its leaves, and
//! what the partial MMR's operations compute in terms of them.
use vstd::arithmetic::power2::pow2;
use vstd::prelude::*;

use crate::digest::{merge_of, Digest};
use crate::forest::{
    lemma_lowest_tree, lemma_odd_shift, lemma_popcount_without_lowest, lemma_pow2_step,
    lowest_tree, odd_part, popcount, trailing_zeros,
};
use crate::in_order::sibling_pos;
use crate::partial_mmr::{appended_peaks, path_matches, path_root_from, tree_of, MmrView};

verus! {

/// Root of the perfect tree of height `h` over `leaves[start .. start + 2^h]`.
pub open spec fn subtree_root(leaves: Seq<Digest>, start: nat, h: nat) -> Digest
    decreases h,
{
    if h == 0 {
        leaves[start as int]
    } else {
        merge_of(
            subtree_root(leaves, start, (h - 1) as nat),
            subtree_root(leaves, start + pow2((h - 1) as nat), (h - 1) as nat),
        )
    }
}

/// Peaks of the forest over the first `f` leaves, largest tree first: the
/// peaks without the smallest tree, then the root of the smallest tree.
pub open spec fn peaks_of(leaves: Seq<Digest>, f: nat) -> Seq<Digest>
    decreases f,
{
    if f == 0 || lowest_tree(f) == 0 || lowest_tree(f) > f {
        seq![]
    } else {
        let start = (f - lowest_tree(f)) as nat;
        peaks_of(leaves, start).push(subtree_root(leaves, start, trailing_zeros(f)))
    }
}

/// Peaks of the MMR whose leaves are `leaves`.
pub open spec fn mmr_peaks(leaves: Seq<Digest>) -> Seq<Digest> {
    peaks_of(leaves, leaves.len())
}

/// Peaks after appending `leaves` one by one to an empty MMR.
pub open spec fn peaks_after_appends(leaves: Seq<Digest>) -> Seq<Digest>
    decreases leaves.len(),
{
    if leaves.len() == 0 {
        seq![]
    } else {
        appended_peaks(
            peaks_after_appends(leaves.drop_last()),
            (leaves.len() - 1) as nat,
            leaves.last(),
        )
    }
}

/// A subtree that lies within the leaves keeps its root when a leaf is appended.
proof fn lemma_subtree_root_append(leaves: Seq<Digest>, x: Digest, start: nat, h: nat)
    requires
        start + pow2(h) <= leaves.len(),
    ensures
        subtree_root(leaves.push(x), start, h) == subtree_root(leaves, start, h),
    decreases h,
{
    if h == 0 {
        vstd::arithmetic::power2::lemma2_to64();
    } else {
        let j = (h - 1) as nat;
        lemma_pow2_step(j);
        lemma_subtree_root_append(leaves, x, start, j);
        lemma_subtree_root_append(leaves, x, start + pow2(j), j);
    }
}

/// The peaks of a forest over leaves already present keep their values when a leaf is appended.
proof fn lemma_peaks_of_append(leaves: Seq<Digest>, x: Digest, g: nat)
    requires
        g <= leaves.len(),
    ensures
        peaks_of(leaves.push(x), g) == peaks_of(leaves, g),
    decreases g,
{
    if g > 0 {
        lemma_lowest_tree(g);
        let start = (g - lowest_tree(g)) as nat;
        lemma_peaks_of_append(leaves, x, start);
        lemma_subtree_root_append(leaves, x, start, trailing_zeros(g));
    }
}

/// The carry of an append, seen at level `k`: the forest over the leaves has
/// `f` trees of size `2^k` below the new leaf's tree, whose root so far is `right`.
proof fn lemma_append_carry(leaves: Seq<Digest>, x: Digest, f: nat, k: nat)
    requires
        (f + 1) * pow2(k) == leaves.len() + 1,
    ensures
        appended_peaks(
            peaks_of(leaves, f * pow2(k)),
            f,
            subtree_root(leaves.push(x), f * pow2(k), k),
        ) == peaks_of(leaves.push(x), (leaves.len() + 1) as nat),
    decreases f,
{
    let longer = leaves.push(x);
    let n = leaves.len();
    lemma_pow2_step(k);
    let p = pow2(k);
    let right = subtree_root(longer, f * p, k);
    assert(f * p + p == n + 1) by (nonlinear_arith)
        requires
            (f + 1) * p == n + 1,
    ;
    if f % 2 == 1 {
        lemma_odd_shift(f, k);
        let g = f * p;
        assert(g >= p) by (nonlinear_arith)
            requires
                g == f * p,
                f >= 1,
                p >= 1,
        ;
        let start = (g - p) as nat;
        assert(start == (f - 1) * p) by (nonlinear_arith)
            requires
                g == f * p,
                start == g - p,
                f >= 1,
        ;
        let half = f / 2;
        assert(start == half * pow2(k + 1)) by (nonlinear_arith)
            requires
                start == (f - 1) * p,
                pow2(k + 1) == 2 * p,
                f == 2 * half + 1,
        ;
        let prev = peaks_of(leaves, g);
        assert(prev == peaks_of(leaves, start).push(subtree_root(leaves, start, k)));
        assert(prev.drop_last() =~= peaks_of(leaves, start));
        lemma_subtree_root_append(leaves, x, start, k);
        assert(merge_of(prev.last(), right) == subtree_root(longer, start, k + 1));
        assert((half + 1) * pow2(k + 1) == n + 1) by (nonlinear_arith)
            requires
                (f + 1) * p == n + 1,
                pow2(k + 1) == 2 * p,
                f == 2 * half + 1,
        ;
        lemma_append_carry(leaves, x, half, k + 1);
    } else {
        lemma_odd_shift(f + 1, k);
        assert((f + 1) * p - p == f * p) by (nonlinear_arith);
        lemma_peaks_of_append(leaves, x, f * p);
        assert(peaks_of(longer, n + 1) == peaks_of(longer, f * p).push(right));
    }
}

/// Appending a leaf to the peaks of a forest gives the peaks of the forest
/// over the leaves followed by the new one.
pub proof fn lemma_append_matches_leaf_peaks(leaves: Seq<Digest>, x: Digest)
    ensures
        appended_peaks(mmr_peaks(leaves), leaves.len(), x) == mmr_peaks(leaves.push(x)),
{
    vstd::arithmetic::power2::lemma2_to64();
    let n = leaves.len();
    assert(n * pow2(0) == n);
    assert((n + 1) * pow2(0) == n + 1);
    assert(subtree_root(leaves.push(x), n, 0) == x);
    lemma_append_carry(leaves, x, n, 0);
}

/// Appending leaves one by one from an empty MMR yields the peaks defined by
/// the whole leaf sequence.
pub proof fn lemma_appends_match_leaf_peaks(leaves: Seq<Digest>)
    ensures
        peaks_after_appends(leaves) == mmr_peaks(leaves),
    decreases leaves.len(),
{
    if leaves.len() > 0 {
        let init = leaves.drop_last();
        lemma_appends_match_leaf_peaks(init);
        lemma_append_matches_leaf_peaks(init, leaves.last());
        assert(init.push(leaves.last()) =~= leaves);
    }
}

/// A forest over `f` leaves has one peak for each set bit of `f`.
pub proof fn lemma_leaf_peaks_count(leaves: Seq<Digest>, f: nat)
    ensures
        peaks_of(leaves, f).len() == popcount(f),
    decreases f,
{
    if f > 0 {
        lemma_lowest_tree(f);
        lemma_popcount_without_lowest(f);
        lemma_leaf_peaks_count(leaves, (f - lowest_tree(f)) as nat);
    }
}

/// The authentication path of leaf `pos` among `leaves`: at each level of the
/// leaf's tree, the root of the sibling subtree of the node above the leaf.
pub open spec fn leaf_path(leaves: Seq<Digest>, pos: nat) -> Seq<Digest> {
    let (height, peak, start) = tree_of(leaves.len(), pos);
    Seq::new(
        height,
        |k: int| subtree_root(leaves, sibling_pos(pos / pow2(k as nat)) * pow2(k as nat), k as nat),
    )
}

/// The tree that holds a leaf lies within the forest, starts at a multiple of
/// its size, and its root is the peak that `tree_of` names.
proof fn lemma_tree_of_peak(leaves: Seq<Digest>, g: nat, pos: nat)
    requires
        pos < g,
    ensures
        ({
            let (h, p, start) = tree_of(g, pos);
            &&& start <= pos < start + pow2(h) <= g
            &&& start % pow2(h) == 0
            &&& p < peaks_of(leaves, g).len()
            &&& peaks_of(leaves, g)[p as int] == subtree_root(leaves, start, h)
        }),
    decreases g,
{
    lemma_lowest_tree(g);
    lemma_leaf_peaks_count(leaves, g);
    lemma_popcount_without_lowest(g);
    let low = lowest_tree(g);
    let start = (g - low) as nat;
    if pos < start {
        lemma_tree_of_peak(leaves, start, pos);
    } else {
        let q = odd_part(g);
        vstd::arithmetic::power2::lemma_pow2_pos(trailing_zeros(g));
        assert(start == (q - 1) * low) by (nonlinear_arith)
            requires
                g == q * low,
                start == g - low,
        ;
        vstd::arithmetic::div_mod::lemma_mod_multiples_basic((q - 1) as int, low as int);
    }
}

/// Climbing from the node above leaf `pos` at level `k` with the path's
/// siblings reaches the root of the leaf's tree of height `h` at `c 2^h`.
proof fn lemma_leaf_path_climbs(
    leaves: Seq<Digest>,
    path: Seq<Digest>,
    pos: nat,
    c: nat,
    h: nat,
    k: nat,
)
    requires
        k <= h,
        path.len() == h,
        c * pow2(h) <= pos < c * pow2(h) + pow2(h),
        forall|j: int|
            0 <= j < h ==> #[trigger] path[j] == subtree_root(
                leaves,
                sibling_pos(pos / pow2(j as nat)) * pow2(j as nat),
                j as nat,
            ),
    ensures
        path_root_from(
            subtree_root(leaves, (pos / pow2(k)) * pow2(k), k),
            path,
            ((pos - c * pow2(h)) as nat) / pow2(k),
            k,
        ) == subtree_root(leaves, c * pow2(h), h),
    decreases h - k,
{
    let s = c * pow2(h);
    let o = (pos - s) as nat;
    let d = pow2(k);
    vstd::arithmetic::power2::lemma_pow2_pos(k);
    vstd::arithmetic::power2::lemma_pow2_adds(k, (h - k) as nat);
    assert(k + (h - k) as nat == h);
    let e = c * pow2((h - k) as nat);
    assert(s == e * d) by (nonlinear_arith)
        requires
            s == c * pow2(h),
            pow2(h) == d * pow2((h - k) as nat),
            e == c * pow2((h - k) as nat),
    ;
    vstd::arithmetic::div_mod::lemma_hoist_over_denominator(o as int, e as int, d);
    assert(pos / d == e + o / d);
    if k == h {
        assert(pow2(0) == 1) by {
            vstd::arithmetic::power2::lemma2_to64();
        }
        assert((h - k) as nat == 0);
        assert(e == c * 1);
        assert(e == c);
        assert(o / d == 0) by {
            vstd::arithmetic::div_mod::lemma_fundamental_div_mod_converse(o as int, d as int, 0, o as int);
        }
    } else {
        let m = pos / d;
        let i = o / d;
        let j = (h - k - 1) as nat;
        lemma_pow2_step(j);
        assert((h - k) as nat == j + 1);
        assert(e == 2 * (c * pow2(j))) by (nonlinear_arith)
            requires
                e == c * pow2((h - k) as nat),
                pow2((h - k) as nat) == 2 * pow2(j),
        ;
        assert(m % 2 == i % 2);
        lemma_pow2_step(k);
        let d2 = pow2(k + 1);
        vstd::arithmetic::div_mod::lemma_div_denominator(pos as int, d as int, 2);
        vstd::arithmetic::div_mod::lemma_div_denominator(o as int, d as int, 2);
        assert(pos / d2 == m / 2);
        assert(o / d2 == i / 2);
        let acc = subtree_root(leaves, m * d, k);
        assert(path[k as int] == subtree_root(leaves, sibling_pos(m) * d, k));
        if m % 2 == 0 {
            assert((m / 2) * d2 == m * d) by (nonlinear_arith)
                requires
                    d2 == 2 * d,
                    m % 2 == 0,
            ;
            assert((m + 1) * d == m * d + d) by (nonlinear_arith);
            assert(merge_of(acc, path[k as int]) == subtree_root(leaves, (pos / d2) * d2, k + 1));
        } else {
            assert((m / 2) * d2 == (m - 1) * d) by (nonlinear_arith)
                requires
                    d2 == 2 * d,
                    m % 2 == 1,
            ;
            assert((m - 1) * d + d == m * d) by (nonlinear_arith);
            assert(merge_of(path[k as int], acc) == subtree_root(leaves, (pos / d2) * d2, k + 1));
        }
        lemma_leaf_path_climbs(leaves, path, pos, c, h, k + 1);
    }
}

/// For every forest and every leaf below its size, the path read off the
/// leaves leads from the leaf to the peak of its tree; so a partial MMR with
/// the peaks of those leaves accepts it, and `track` succeeds with it.
pub proof fn lemma_leaf_path_matches(leaves: Seq<Digest>, pos: nat, m: MmrView)
    requires
        pos < leaves.len(),
        m.forest == leaves.len(),
        m.peaks == mmr_peaks(leaves),
    ensures
        path_matches(m, pos, leaves[pos as int], leaf_path(leaves, pos)),
{
    let n = leaves.len();
    lemma_tree_of_peak(leaves, n, pos);
    let (h, p, start) = tree_of(n, pos);
    let path = leaf_path(leaves, pos);
    vstd::arithmetic::power2::lemma_pow2_pos(h);
    let c = start / pow2(h);
    vstd::arithmetic::div_mod::lemma_fundamental_div_mod(start as int, pow2(h) as int);
    assert(start == c * pow2(h)) by (nonlinear_arith)
        requires
            start == pow2(h) * c + start % pow2(h),
            start % pow2(h) == 0,
    ;
    lemma_leaf_path_climbs(leaves, path, pos, c, h, 0);
    vstd::arithmetic::power2::lemma2_to64();
    assert(pos / pow2(0) == pos);
    assert((pos - start) as nat / pow2(0) == (pos - start) as nat);
    assert(pos * pow2(0) == pos);
    assert(subtree_root(leaves, pos, 0) == leaves[pos as int]);
}

/// Rebuilding the MMR of a chain from the peaks stored with its last block
/// (the peaks of the chain before that block) and the last block's commitment
/// reproduces the peaks computed from the whole sequence of commitments.
pub proof fn lemma_rebuild_reproduces_chain_peaks(commitments: Seq<Digest>)
    requires
        commitments.len() > 0,
    ensures
        appended_peaks(
            mmr_peaks(commitments.drop_last()),
            (commitments.len() - 1) as nat,
            commitments.last(),
        ) == mmr_peaks(commitments),
{
    lemma_append_matches_leaf_peaks(commitments.drop_last(), commitments.last());
    assert(commitments.drop_last().push(commitments.last()) =~= commitments);
}

} // verus!
