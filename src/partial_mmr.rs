//! A partial Merkle Mountain Range over block-header commitments: the peaks of
//! the whole forest, plus the authentication nodes of the leaves it tracks.
use std::collections::BTreeMap;

use vstd::arithmetic::power2::pow2;
use vstd::prelude::*;

use crate::digest::{merge, merge_of, Digest};
use crate::forest::{
    lemma_lowest_tree, lemma_odd_shift, lemma_popcount_without_lowest, lemma_pow2_step,
    lemma_trailing_zeros_step, lowest_tree, odd_part, popcount, trailing_zeros,
};
use crate::in_order::{path_sibling_index, sibling_pos, InOrderIndex};

verus! {

broadcast use vstd::laws_cmp::group_laws_cmp;

/// Largest forest handled: one leaf for each 32-bit block number.
pub const MAX_FOREST: u64 = 0x1_0000_0000;

/// Why a proof or a set of peaks was rejected.
#[derive(Clone, Copy, Debug, PartialEq, Eq, Structural)]
pub enum MmrError {
    /// The leaf position is not below the forest size.
    UnknownLeaf,
    /// The peak recomputed from a leaf and its path differs from the known peak.
    PeakMismatch,
    /// The number of peaks differs from the number of set bits of the forest size.
    InvalidPeaks,
}

/// The peaks of a forest, largest tree first.
#[derive(Clone, Debug)]
pub struct MmrPeaks {
    num_leaves: usize,
    peaks: Vec<Digest>,
}

/// A forest size with its peaks.
pub struct PeaksView {
    pub forest: nat,
    pub peaks: Seq<Digest>,
}

impl View for MmrPeaks {
    type V = PeaksView;

    closed spec fn view(&self) -> PeaksView {
        PeaksView { forest: self.num_leaves as nat, peaks: self.peaks@ }
    }
}

/// Peaks fit a forest when there is one for each set bit of its size.
pub open spec fn peaks_fit(forest: nat, peaks: Seq<Digest>) -> bool {
    &&& peaks.len() == popcount(forest)
    &&& forest <= MAX_FOREST as nat
}

/// Counts the set bits of `n`.
fn count_ones(n: usize) -> (r: usize)
    ensures
        r == popcount(n as nat),
{
    let mut q: usize = n;
    let mut c: usize = 0;
    while q > 0
        invariant
            c + popcount(q as nat) == popcount(n as nat),
            c <= n - q,
        decreases q,
    {
        c = c + q % 2;
        q = q / 2;
    }
    c
}

/// The trailing zeros of `g` and the size of its smallest tree.
fn lowest_tree_of(g: usize) -> (r: (usize, usize))
    requires
        g > 0,
    ensures
        r.0 == trailing_zeros(g as nat),
        r.1 == lowest_tree(g as nat),
{
    let mut q: usize = g;
    let mut low: usize = 1;
    let mut t: usize = 0;
    proof {
        vstd::arithmetic::power2::lemma2_to64();
    }
    while q % 2 == 0
        invariant
            q > 0,
            q * low == g,
            low == pow2(t as nat),
            t < low,
            trailing_zeros(g as nat) == t + trailing_zeros(q as nat),
        decreases q,
    {
        proof {
            lemma_trailing_zeros_step(q as nat);
            lemma_pow2_step(t as nat);
        }
        assert(low * 2 <= g && (q / 2) * (low * 2) == g) by (nonlinear_arith)
            requires
                q * low == g,
                q % 2 == 0,
                q > 0,
        ;
        q = q / 2;
        low = low * 2;
        t = t + 1;
    }
    (t, low)
}

impl MmrPeaks {
    /// Pairs a forest size with its peaks; fails with `InvalidPeaks` unless
    /// there is exactly one peak for each set bit of `num_leaves`.
    pub fn new(num_leaves: usize, peaks: Vec<Digest>) -> (r: Result<MmrPeaks, MmrError>)
        requires
            num_leaves as nat <= MAX_FOREST as nat,
        ensures
            r is Ok <==> peaks@.len() == popcount(num_leaves as nat),
            r is Err ==> r == Err::<MmrPeaks, MmrError>(MmrError::InvalidPeaks),
            r matches Ok(p) ==> p@.forest == num_leaves && p@.peaks == peaks@ && p.wf(),
    {
        if count_ones(num_leaves) != peaks.len() {
            return Err(MmrError::InvalidPeaks);
        }
        Ok(MmrPeaks { num_leaves, peaks })
    }

    /// The peaks fit the forest size.
    pub open spec fn wf(&self) -> bool {
        peaks_fit(self@.forest, self@.peaks)
    }

    /// The forest size.
    pub fn num_leaves(&self) -> (r: usize)
        ensures
            r == self@.forest,
    {
        self.num_leaves
    }

    /// The peaks, largest tree first.
    pub fn peaks(&self) -> (r: &Vec<Digest>)
        ensures
            r@ == self@.peaks,
    {
        &self.peaks
    }
}

/// The state of a partial MMR as plain values: its forest size, its peaks,
/// the authentication nodes it holds by in-order index, and whether the last
/// leaf of an odd forest is tracked.
pub struct MmrView {
    pub forest: nat,
    pub peaks: Seq<Digest>,
    pub nodes: Map<u64, Digest>,
    pub track_latest: bool,
}

/// A partial Merkle Mountain Range.
pub struct PartialMmr {
    forest: usize,
    peaks: Vec<Digest>,
    nodes: BTreeMap<u64, Digest>,
    track_latest: bool,
}

impl View for PartialMmr {
    type V = MmrView;

    closed spec fn view(&self) -> MmrView {
        MmrView {
            forest: self.forest as nat,
            peaks: self.peaks@,
            nodes: self.nodes@,
            track_latest: self.track_latest,
        }
    }
}

/// The peaks after appending leaf `right` to a forest of `f` leaves with
/// peaks `peaks`: while the forest has a tree of the size of `right`, that
/// tree's peak is merged with `right`, as a carry runs in binary addition.
pub open spec fn appended_peaks(peaks: Seq<Digest>, f: nat, right: Digest) -> Seq<Digest>
    decreases f,
{
    if f % 2 == 1 && peaks.len() > 0 {
        appended_peaks(peaks.drop_last(), f / 2, merge_of(peaks.last(), right))
    } else {
        peaks.push(right)
    }
}

/// Whether leaf `pos` of `m` can be proven: the last leaf of an odd forest is
/// a peak itself and tracked by a flag; any other leaf by its sibling's node.
pub open spec fn leaf_tracked(m: MmrView, pos: nat) -> bool {
    if pos >= m.forest {
        false
    } else if pos + 1 == m.forest && m.forest % 2 == 1 {
        m.track_latest
    } else {
        m.nodes.contains_key(path_sibling_index(pos, 0) as u64)
    }
}

/// The tree of a forest of `f` leaves that holds leaf `pos`, as its height,
/// the index of its peak, and its first leaf.
pub open spec fn tree_of(f: nat, pos: nat) -> (nat, nat, nat)
    decreases f,
{
    if f == 0 || lowest_tree(f) == 0 || lowest_tree(f) > f {
        (0, 0, 0)
    } else {
        let start = (f - lowest_tree(f)) as nat;
        if pos >= start {
            (trailing_zeros(f), (popcount(f) - 1) as nat, start)
        } else {
            tree_of(start, pos)
        }
    }
}

/// The root reached from `acc` by the siblings `path[k..]`, the node being
/// at position `idx` of its level: an odd position is a right child.
pub open spec fn path_root_from(acc: Digest, path: Seq<Digest>, idx: nat, k: nat) -> Digest
    decreases path.len() - k,
{
    if k >= path.len() {
        acc
    } else {
        let next = if idx % 2 == 1 {
            merge_of(path[k as int], acc)
        } else {
            merge_of(acc, path[k as int])
        };
        path_root_from(next, path, idx / 2, k + 1)
    }
}

/// The root of the tree computed from `leaf`, at `offset` within its tree, and its path.
pub open spec fn path_root(leaf: Digest, path: Seq<Digest>, offset: nat) -> Digest {
    path_root_from(leaf, path, offset, 0)
}

/// Whether `path` authenticates `leaf` at position `pos` against the peaks of `m`.
pub open spec fn path_matches(m: MmrView, pos: nat, leaf: Digest, path: Seq<Digest>) -> bool {
    let (height, peak, start) = tree_of(m.forest, pos);
    &&& pos < m.forest
    &&& path.len() == height
    &&& path_root(leaf, path, (pos - start) as nat) == m.peaks[peak as int]
}

/// The nodes after storing the first `n` siblings of the path of leaf `pos`.
pub open spec fn with_path_nodes(nodes: Map<u64, Digest>, pos: nat, path: Seq<Digest>, n: nat) -> Map<
    u64,
    Digest,
>
    decreases n,
{
    if n == 0 || n > path.len() {
        nodes
    } else {
        with_path_nodes(nodes, pos, path, (n - 1) as nat).insert(
            path_sibling_index(pos, (n - 1) as nat) as u64,
            path[n - 1],
        )
    }
}

/// The node map holding the given (index, digest) pairs; a later pair wins.
pub open spec fn nodes_map(list: Seq<(InOrderIndex, Digest)>) -> Map<u64, Digest>
    decreases list.len(),
{
    if list.len() == 0 {
        Map::empty()
    } else {
        nodes_map(list.drop_last()).insert(list.last().0.idx, list.last().1)
    }
}

/// Appending a leaf to fitting peaks gives peaks that fit the grown forest.
pub proof fn lemma_appended_peaks_fit(peaks: Seq<Digest>, f: nat, right: Digest)
    requires
        peaks.len() == popcount(f),
    ensures
        appended_peaks(peaks, f, right).len() == popcount(f + 1),
    decreases f,
{
    if f % 2 == 1 {
        assert((f + 1) % 2 == 0 && (f + 1) / 2 == f / 2 + 1);
        lemma_appended_peaks_fit(peaks.drop_last(), f / 2, merge_of(peaks.last(), right));
    } else {
        assert((f + 1) % 2 == 1 && (f + 1) / 2 == f / 2);
    }
}

impl PartialMmr {
    /// The peaks fit the forest size.
    pub open spec fn wf(&self) -> bool {
        peaks_fit(self@.forest, self@.peaks)
    }

    /// A partial MMR that knows the given peaks and tracks no leaf.
    pub fn from_peaks(peaks: MmrPeaks) -> (r: PartialMmr)
        requires
            peaks.wf(),
        ensures
            r.wf(),
            r@.forest == peaks@.forest,
            r@.peaks == peaks@.peaks,
            r@.nodes == Map::<u64, Digest>::empty(),
            !r@.track_latest,
    {
        let MmrPeaks { num_leaves, peaks } = peaks;
        PartialMmr { forest: num_leaves, peaks, nodes: BTreeMap::new(), track_latest: false }
    }

    /// A partial MMR with the given peaks, authentication nodes, and flag for
    /// the last leaf of an odd forest.
    pub fn from_parts(peaks: MmrPeaks, nodes: Vec<(InOrderIndex, Digest)>, track_latest: bool) -> (r:
        PartialMmr)
        requires
            peaks.wf(),
        ensures
            r.wf(),
            r@.forest == peaks@.forest,
            r@.peaks == peaks@.peaks,
            r@.nodes == nodes_map(nodes@),
            r@.track_latest == track_latest,
    {
        let mut map: BTreeMap<u64, Digest> = BTreeMap::new();
        let mut i: usize = 0;
        while i < nodes.len()
            invariant
                i <= nodes@.len(),
                map@ == nodes_map(nodes@.subrange(0, i as int)),
            decreases nodes@.len() - i,
        {
            let (idx, d) = nodes[i];
            map.insert(idx.idx, d);
            assert(nodes@.subrange(0, i + 1).drop_last() =~= nodes@.subrange(0, i as int));
            i = i + 1;
        }
        assert(nodes@.subrange(0, nodes@.len() as int) =~= nodes@);
        let MmrPeaks { num_leaves, peaks } = peaks;
        PartialMmr { forest: num_leaves, peaks, nodes: map, track_latest }
    }

    /// The number of leaves.
    pub fn forest(&self) -> (r: usize)
        ensures
            r == self@.forest,
    {
        self.forest
    }

    /// The current peaks.
    pub fn peaks(&self) -> (r: MmrPeaks)
        requires
            self.wf(),
        ensures
            r.wf(),
            r@.forest == self@.forest,
            r@.peaks == self@.peaks,
    {
        let mut copy: Vec<Digest> = Vec::new();
        let mut i: usize = 0;
        while i < self.peaks.len()
            invariant
                i <= self.peaks@.len(),
                copy@ == self.peaks@.subrange(0, i as int),
            decreases self.peaks@.len() - i,
        {
            copy.push(self.peaks[i]);
            i = i + 1;
            assert(copy@ =~= self.peaks@.subrange(0, i as int));
        }
        assert(copy@ =~= self.peaks@);
        MmrPeaks { num_leaves: self.forest, peaks: copy }
    }

    /// Appends leaf `leaf`, merging equal-sized trees as a carry runs in binary
    /// addition; when `track` holds, keeps the nodes that prove the new leaf.
    /// Returns the authentication nodes this call stored.
    pub fn add(&mut self, leaf: Digest, track: bool) -> (r: Vec<(InOrderIndex, Digest)>)
        requires
            old(self).wf(),
            old(self)@.forest < MAX_FOREST as nat,
            old(self)@.forest < usize::MAX,
        ensures
            final(self).wf(),
            final(self)@.forest == old(self)@.forest + 1,
            final(self)@.peaks == appended_peaks(old(self)@.peaks, old(self)@.forest, leaf),
            final(self)@.track_latest == if old(self)@.forest % 2 == 0 {
                track
            } else {
                old(self)@.track_latest
            },
            track ==> leaf_tracked(final(self)@, old(self)@.forest),
            forall|p: nat| #[trigger]
                leaf_tracked(old(self)@, p) ==> leaf_tracked(final(self)@, p),
            forall|key: u64| #[trigger]
                final(self)@.nodes.contains_key(key) <==> (old(self)@.nodes.contains_key(key) || exists|
                    i: int,
                | 0 <= i < r@.len() && r@[i].0.idx == key),
            forall|i: int|
                0 <= i < r@.len() ==> #[trigger] final(self)@.nodes.contains_key(r@[i].0.idx)
                    && final(self)@.nodes[r@[i].0.idx] == r@[i].1,
            forall|key: u64|
                #![trigger final(self)@.nodes[key]]
                old(self)@.nodes.contains_key(key) && !(exists|i: int|
                    0 <= i < r@.len() && r@[i].0.idx == key) ==> final(self)@.nodes[key] == old(
                    self,
                )@.nodes[key],
    {
        let old_forest = self.forest;
        proof {
            lemma_appended_peaks_fit(self.peaks@, old_forest as nat, leaf);
            vstd::arithmetic::power2::lemma2_to64();
        }
        self.forest = old_forest + 1;
        let mut new_nodes: Vec<(InOrderIndex, Digest)> = Vec::new();
        if old_forest % 2 == 0 {
            self.track_latest = track;
            self.peaks.push(leaf);
            assert forall|p: nat| #[trigger] leaf_tracked(old(self)@, p) implies leaf_tracked(
                self@,
                p,
            ) by {
                assert(self@.nodes == old(self)@.nodes);
            }
            return new_nodes;
        }
        let ghost first_left = (2 * old_forest - 1) as u64;
        let ghost first_right = (2 * old_forest + 1) as u64;
        let mut track_right = track;
        let mut track_left = self.track_latest;
        let mut right = leaf;
        let mut q: u64 = old_forest as u64;
        let mut step: u64 = 1;
        let ghost mut k: nat = 0;
        while q % 2 == 1
            invariant
                self.forest == old_forest + 1,
                old_forest == old(self).forest,
                old_forest % 2 == 1,
                old_forest as nat <= MAX_FOREST as nat,
                first_left == 2 * old_forest - 1,
                first_right == 2 * old_forest + 1,
                k == 0 ==> track_left == old(self).track_latest,
                k > 0 && old(self).track_latest ==> self.nodes@.contains_key(first_right),
                self.track_latest == old(self).track_latest,
                self.peaks@.len() == popcount(q as nat),
                appended_peaks(self.peaks@, q as nat, right) == appended_peaks(
                    old(self).peaks@,
                    old_forest as nat,
                    leaf,
                ),
                step == pow2(k),
                step >= 1,
                q * step <= old_forest,
                k == 0 ==> q == old_forest && step == 1 && track_right == track,
                track ==> track_right,
                k > 0 && track ==> self.nodes@.contains_key(first_left),
                forall|key: u64| #[trigger]
                    self.nodes@.contains_key(key) <==> (old(self).nodes@.contains_key(key) || exists|
                        i: int,
                    | 0 <= i < new_nodes@.len() && new_nodes@[i].0.idx == key),
                forall|i: int|
                    0 <= i < new_nodes@.len() ==> #[trigger] self.nodes@.contains_key(
                        new_nodes@[i].0.idx,
                    ) && self.nodes@[new_nodes@[i].0.idx] == new_nodes@[i].1 && trailing_zeros(
                        new_nodes@[i].0.idx as nat,
                    ) < k,
                forall|key: u64|
                    #![trigger self.nodes@[key]]
                    old(self).nodes@.contains_key(key) && !(exists|i: int|
                        0 <= i < new_nodes@.len() && new_nodes@[i].0.idx == key) ==> self.nodes@[key]
                        == old(self).nodes@[key],
            decreases q,
        {
            assert(popcount(q as nat) == 1 + popcount((q / 2) as nat));
            let left = self.peaks.pop().unwrap();
            assert((2 * q + 7) * step <= 9 * old_forest && q <= old_forest && (2 * q + 1) * step
                <= 9 * old_forest && (2 * q - 1) * step <= 9 * old_forest) by (nonlinear_arith)
                requires
                    q * step <= old_forest,
                    step >= 1,
                    q >= 1,
            ;
            let right_idx: u64 = (2 * q + 1) * step;
            let left_idx: u64 = (2 * q - 1) * step;
            proof {
                lemma_odd_shift((2 * q + 1) as nat, k);
                lemma_odd_shift((2 * q - 1) as nat, k);
                assert(left_idx < right_idx) by (nonlinear_arith)
                    requires
                        left_idx == (2 * q - 1) * step,
                        right_idx == (2 * q + 1) * step,
                        step >= 1,
                ;
            }
            let ghost before = new_nodes@;
            let ghost nodes_before = self.nodes@;
            let ghost tr = track_right;
            let ghost tl = track_left;
            if track_right {
                self.nodes.insert(left_idx, left);
                new_nodes.push((InOrderIndex { idx: left_idx }, left));
            }
            if track_left {
                self.nodes.insert(right_idx, right);
                new_nodes.push((InOrderIndex { idx: right_idx }, right));
            }
            proof {
                if old(self).track_latest {
                    if k == 0 {
                        assert((2 * q + 1) * step == 2 * q + 1) by (nonlinear_arith)
                            requires
                                step == 1,
                        ;
                        assert(right_idx == first_right);
                    }
                    assert(self.nodes@.contains_key(first_right));
                }
                if track {
                    if k == 0 {
                        assert(q == old_forest && step == 1);
                        assert((2 * q - 1) * step == 2 * q - 1) by (nonlinear_arith)
                            requires
                                step == 1,
                        ;
                        assert(left_idx == first_left);
                    }
                    assert(self.nodes@.contains_key(first_left));
                }
            }
            assert forall|key: u64| #[trigger]
                self.nodes@.contains_key(key) <==> (old(self).nodes@.contains_key(key) || exists|
                    i: int,
                | 0 <= i < new_nodes@.len() && new_nodes@[i].0.idx == key) by {
                assert(nodes_before.contains_key(key) <==> (old(self).nodes@.contains_key(key)
                    || exists|i: int| 0 <= i < before.len() && before[i].0.idx == key));
                assert(self.nodes@.contains_key(key) <==> (nodes_before.contains_key(key) || (tr
                    && key == left_idx) || (tl && key == right_idx)));
                if exists|i: int| 0 <= i < before.len() && before[i].0.idx == key {
                    let i = choose|i: int| 0 <= i < before.len() && before[i].0.idx == key;
                    assert(new_nodes@[i] == before[i]);
                }
                if tr && key == left_idx {
                    assert(new_nodes@[before.len() as int].0.idx == key);
                }
                if tl && key == right_idx {
                    let j = if tr {
                        before.len() as int + 1
                    } else {
                        before.len() as int
                    };
                    assert(new_nodes@[j].0.idx == key);
                }
                if exists|i: int| 0 <= i < new_nodes@.len() && new_nodes@[i].0.idx == key {
                    let i = choose|i: int| 0 <= i < new_nodes@.len() && new_nodes@[i].0.idx == key;
                    if i < before.len() {
                        assert(new_nodes@[i] == before[i]);
                    }
                }
            }
            assert forall|i: int| 0 <= i < new_nodes@.len() implies #[trigger] self.nodes@.contains_key(
                new_nodes@[i].0.idx,
            ) && self.nodes@[new_nodes@[i].0.idx] == new_nodes@[i].1 && trailing_zeros(
                new_nodes@[i].0.idx as nat,
            ) < k + 1 by {
                if i < before.len() {
                    assert(new_nodes@[i] == before[i]);
                    assert(nodes_before.contains_key(before[i].0.idx));
                    assert(before[i].0.idx != left_idx && before[i].0.idx != right_idx);
                }
            }
            assert forall|key: u64|
                #![trigger self.nodes@[key]]
                old(self).nodes@.contains_key(key) && !(exists|i: int|
                    0 <= i < new_nodes@.len() && new_nodes@[i].0.idx == key) implies self.nodes@[key]
                == old(self).nodes@[key] by {
                if tr {
                    assert(new_nodes@[before.len() as int].0.idx == left_idx);
                }
                if tl {
                    let j = if tr {
                        before.len() as int + 1
                    } else {
                        before.len() as int
                    };
                    assert(new_nodes@[j].0.idx == right_idx);
                }
                assert forall|i: int| 0 <= i < before.len() implies before[i].0.idx != key by {
                    assert(new_nodes@[i] == before[i]);
                }
                assert(nodes_before[key] == old(self).nodes@[key]);
            }
            right = merge(&left, &right);
            track_right = track_right || track_left;
            let parent_sib: u64 = if (q / 2) % 2 == 0 {
                q / 2 + 1
            } else {
                q / 2 - 1
            };
            assert((4 * parent_sib + 3) * step <= (2 * q + 7) * step && (4 * parent_sib + 1) * step
                <= (2 * q + 7) * step && step <= q * step) by (nonlinear_arith)
                requires
                    parent_sib <= q / 2 + 1,
                    step >= 1,
                    q >= 1,
            ;
            track_left = self.nodes.contains_key(&((4 * parent_sib + 1) * step))
                || self.nodes.contains_key(&((4 * parent_sib + 3) * step));
            assert((q / 2) * (2 * step) <= q * step) by (nonlinear_arith)
                requires
                    step >= 1,
            ;
            proof {
                lemma_pow2_step(k);
                k = k + 1;
            }
            q = q / 2;
            step = 2 * step;
        }
        self.peaks.push(right);
        assert forall|p: nat| #[trigger] leaf_tracked(old(self)@, p) implies leaf_tracked(
            self@,
            p,
        ) by {
            let key = path_sibling_index(p, 0) as u64;
            if p + 1 == old_forest {
                assert(sibling_pos(p) == old_forest);
                assert(key == first_right);
            } else {
                assert(old(self)@.nodes.contains_key(key));
            }
        }
        new_nodes
    }

    /// Registers the authentication path `path` of leaf `leaf_pos`, whose
    /// value is `leaf`. Fails with `UnknownLeaf` when the leaf is not in the
    /// forest, and with `PeakMismatch` when the path does not lead from the
    /// leaf to the peak of its tree; on failure nothing changes.
    pub fn track(&mut self, leaf_pos: usize, leaf: Digest, path: &Vec<Digest>) -> (r: Result<(), MmrError>)
        requires
            old(self).wf(),
        ensures
            final(self).wf(),
            final(self)@.forest == old(self)@.forest,
            final(self)@.peaks == old(self)@.peaks,
            r is Ok <==> path_matches(old(self)@, leaf_pos as nat, leaf, path@),
            r == Err::<(), MmrError>(MmrError::UnknownLeaf) <==> leaf_pos >= old(self)@.forest,
            r is Err ==> r == Err::<(), MmrError>(MmrError::UnknownLeaf) || r == Err::<(), MmrError>(MmrError::PeakMismatch),
            r is Err ==> final(self)@ == old(self)@,
            r is Ok ==> leaf_tracked(final(self)@, leaf_pos as nat),
            r is Ok ==> final(self)@.nodes == with_path_nodes(
                old(self)@.nodes,
                leaf_pos as nat,
                path@,
                path@.len(),
            ),
            r is Ok ==> final(self)@.track_latest == (old(self)@.track_latest || path@.len() == 0),
    {
        if leaf_pos >= self.forest {
            return Err(MmrError::UnknownLeaf);
        }
        let forest = self.forest;
        let num_peaks = self.peaks.len();
        let mut g: usize = forest;
        let mut c: usize = 0;
        let (mut t, mut low) = lowest_tree_of(g);
        proof {
            lemma_lowest_tree(g as nat);
        }
        while leaf_pos < g - low
            invariant
                forest == self.forest,
                leaf_pos < g <= forest,
                low == lowest_tree(g as nat),
                t == trailing_zeros(g as nat),
                1 <= low <= g,
                g == odd_part(g as nat) * low,
                odd_part(g as nat) % 2 == 1,
                tree_of(forest as nat, leaf_pos as nat) == tree_of(g as nat, leaf_pos as nat),
                popcount(g as nat) + c == popcount(forest as nat),
                popcount(forest as nat) == self.peaks@.len(),
                num_peaks == self.peaks@.len(),
                g == forest || g % 2 == 0,
            decreases g,
        {
            proof {
                lemma_popcount_without_lowest(g as nat);
                let q = odd_part(g as nat);
                let m = (q - 1) / 2;
                assert(q - 1 == 2 * m);
                assert((q - 1) * low == 2 * (m * low)) by (nonlinear_arith)
                    requires
                        q - 1 == 2 * m,
                ;
                assert((q - 1) * low == g - low) by (nonlinear_arith)
                    requires
                        g == q * low,
                ;
            }
            g = g - low;
            c = c + 1;
            let (t2, low2) = lowest_tree_of(g);
            t = t2;
            low = low2;
            proof {
                lemma_lowest_tree(g as nat);
            }
        }
        proof {
            lemma_popcount_without_lowest(g as nat);
        }
        let start: usize = g - low;
        let peak: usize = self.peaks.len() - 1 - c;
        assert(tree_of(forest as nat, leaf_pos as nat) == (t as nat, peak as nat, start as nat));
        if path.len() != t {
            return Err(MmrError::PeakMismatch);
        }
        if t == 0 {
            proof {
                vstd::arithmetic::power2::lemma2_to64();
                if g % 2 == 0 {
                    lemma_trailing_zeros_step(g as nat);
                }
                assert(g % 2 == 1 && g == forest && low == 1);
                assert(leaf_pos + 1 == forest);
            }
            assert(path@.len() == 0);
            assert(path_root(leaf, path@, (leaf_pos - start) as nat) == leaf);
            if self.peaks[peak] == leaf {
                self.track_latest = true;
                assert(self@.nodes == with_path_nodes(
                    old(self)@.nodes,
                    leaf_pos as nat,
                    path@,
                    path@.len(),
                ));
                return Ok(());
            }
            return Err(MmrError::PeakMismatch);
        }
        let mut acc: Digest = leaf;
        let mut idx: usize = leaf_pos - start;
        let mut k: usize = 0;
        while k < path.len()
            invariant
                k <= path@.len(),
                path_root(leaf, path@, (leaf_pos - start) as nat) == path_root_from(
                    acc,
                    path@,
                    idx as nat,
                    k as nat,
                ),
            decreases path@.len() - k,
        {
            if idx % 2 == 1 {
                acc = merge(&path[k], &acc);
            } else {
                acc = merge(&acc, &path[k]);
            }
            idx = idx / 2;
            k = k + 1;
        }
        if acc != self.peaks[peak] {
            return Err(MmrError::PeakMismatch);
        }
        proof {
            vstd::arithmetic::power2::lemma2_to64();
            vstd::arithmetic::power2::lemma_pow2_strictly_increases(0, t as nat);
        }
        let mut pos: u64 = leaf_pos as u64;
        let mut step: u64 = 1;
        let mut k: usize = 0;
        let ghost first_key = path_sibling_index(leaf_pos as nat, 0) as u64;
        while k < path.len()
            invariant
                k <= path@.len() == t,
                t > 0,
                low == pow2(t as nat),
                low <= g <= forest,
                forest == self.forest,
                forest as nat <= MAX_FOREST as nat,
                leaf_pos < forest,
                k < t ==> step == pow2(k as nat) && step < low && pos == (leaf_pos as nat) / pow2(
                    k as nat,
                ),
                self@.nodes == with_path_nodes(old(self)@.nodes, leaf_pos as nat, path@, k as nat),
                k > 0 ==> self@.nodes.contains_key(first_key),
                first_key == path_sibling_index(leaf_pos as nat, 0) as u64,
                self.peaks@ == old(self).peaks@,
                self.track_latest == old(self).track_latest,
            decreases path@.len() - k,
        {
            proof {
                vstd::arithmetic::power2::lemma_pow2_pos(k as nat);
            }
            let sib: u64 = if pos % 2 == 0 {
                pos + 1
            } else {
                pos - 1
            };
            assert(pos * step <= leaf_pos) by {
                vstd::arithmetic::div_mod::lemma_fundamental_div_mod(leaf_pos as int, step as int);
                let lp = leaf_pos as int;
                let st = step as int;
                assert(pos * st + lp % st == lp) by (nonlinear_arith)
                    requires
                        lp == st * (lp / st) + lp % st,
                        pos == lp / st,
                ;
            }
            assert((2 * sib + 1) * step <= 2 * leaf_pos + 3 * step && pos <= leaf_pos) by (nonlinear_arith)
                requires
                    pos * step <= leaf_pos,
                    sib <= pos + 1,
                    step >= 1,
            ;
            let key: u64 = (2 * sib + 1) * step;
            assert(sib == sibling_pos(pos as nat));
            assert(key == path_sibling_index(leaf_pos as nat, k as nat));
            self.nodes.insert(key, path[k]);
            proof {
                vstd::arithmetic::div_mod::lemma_div_denominator(leaf_pos as int, step as int, 2);
                lemma_pow2_step(k as nat);
                if k + 1 < t {
                    vstd::arithmetic::power2::lemma_pow2_strictly_increases((k + 1) as nat, t as nat);
                }
            }
            pos = pos / 2;
            if k + 1 < path.len() {
                step = step * 2;
            }
            k = k + 1;
        }
        Ok(())
    }

    /// Whether leaf `pos` can be proven from what this MMR holds.
    pub fn is_tracked(&self, pos: usize) -> (r: bool)
        requires
            self.wf(),
        ensures
            r == leaf_tracked(self@, pos as nat),
    {
        if pos >= self.forest {
            return false;
        } else if pos + 1 == self.forest && self.forest % 2 == 1 {
            return self.track_latest;
        }
        let sib: u64 = if pos % 2 == 0 {
            pos as u64 + 1
        } else {
            pos as u64 - 1
        };
        proof {
            vstd::arithmetic::power2::lemma2_to64();
        }
        self.nodes.contains_key(&(2 * sib + 1))
    }
}

} // verus!
