//! Block-header synchronization: trimming remote authentication paths to the
//! local forest, and the decisions that authenticate a fetched header against
//! the partial MMR before anything is persisted.
use vstd::arithmetic::div_mod::lemma_div_denominator;
use vstd::arithmetic::power2::pow2;
use vstd::prelude::*;

use crate::digest::Digest;
use crate::forest::lemma_pow2_step;
use crate::in_order::{path_sibling_index, sibling_pos, InOrderIndex};
use crate::partial_mmr::{
    appended_peaks, leaf_tracked, nodes_map, path_matches, with_path_nodes, MmrError, MmrPeaks,
    PartialMmr, MAX_FOREST,
};

verus! {

/// The nodes of a trimmed path as (in-order index, digest) pairs of plain values.
pub open spec fn nodes_view(v: Seq<(InOrderIndex, Digest)>) -> Seq<(nat, Digest)> {
    v.map_values(|e: (InOrderIndex, Digest)| (e.0.idx as nat, e.1))
}

/// The entries kept from the first `n` siblings of `path`, the path of leaf
/// `leaf`: siblings are kept, each with its in-order index, only while their
/// indices do not exceed `bound`; the first sibling past it ends the trimming.
pub open spec fn trimmed_prefix(path: Seq<Digest>, leaf: nat, bound: nat, n: nat) -> Seq<
    (nat, Digest),
>
    decreases n,
{
    if n == 0 || n > path.len() {
        seq![]
    } else {
        let prev = trimmed_prefix(path, leaf, bound, (n - 1) as nat);
        let s = path_sibling_index(leaf, (n - 1) as nat);
        if prev.len() == n - 1 && s <= bound {
            prev.push((s, path[n - 1]))
        } else {
            prev
        }
    }
}

/// `path` trimmed to a forest of `forest` leaves: the bound is the in-order
/// index of the rightmost leaf, `2 (forest - 1) + 1`.
pub open spec fn trimmed_path(path: Seq<Digest>, leaf: nat, forest: nat) -> Seq<(nat, Digest)> {
    trimmed_prefix(path, leaf, (2 * forest - 1) as nat, path.len())
}

/// Returns the nodes of `merkle_path`, the path of leaf `block_num`, that a
/// forest of `forest` leaves knows of, each with its in-order index.
pub fn adjust_merkle_path_for_forest(merkle_path: &Vec<Digest>, block_num: u32, forest: usize) -> (r:
    Vec<(InOrderIndex, Digest)>)
    requires
        (block_num as nat) < forest,
        forest as nat <= MAX_FOREST as nat,
    ensures
        nodes_view(r@) == trimmed_path(merkle_path@, block_num as nat, forest as nat),
{
    let bound: u64 = 2 * (forest as u64) - 1;
    let leaf: u64 = block_num as u64;
    let mut pos: u64 = leaf;
    let mut step: u64 = 1;
    let mut in_range: bool = true;
    let mut stopped: bool = false;
    let mut path_nodes: Vec<(InOrderIndex, Digest)> = Vec::new();
    let mut k: usize = 0;
    proof {
        vstd::arithmetic::power2::lemma2_to64();
    }
    while k < merkle_path.len()
        invariant
            k <= merkle_path.len(),
            bound == 2 * forest - 1,
            leaf == block_num,
            leaf < forest,
            forest as nat <= MAX_FOREST as nat,
            in_range ==> step == pow2(k as nat) && step <= bound && pos == (leaf as nat) / pow2(k as nat),
            !in_range ==> pow2(k as nat) > bound,
            !stopped ==> path_nodes@.len() == k,
            stopped ==> path_nodes@.len() < k,
            nodes_view(path_nodes@) == trimmed_prefix(
                merkle_path@,
                leaf as nat,
                bound as nat,
                k as nat,
            ),
        decreases merkle_path.len() - k,
    {
        proof {
            lemma_pow2_step(k as nat);
        }
        let ghost prev = path_nodes@;
        let ghost s = path_sibling_index(leaf as nat, k as nat);
        if in_range {
            let sib: u64 = if pos % 2 == 0 {
                pos + 1
            } else {
                pos - 1
            };
            assert(pos * step <= leaf) by {
                vstd::arithmetic::div_mod::lemma_fundamental_div_mod(leaf as int, step as int);
                assert(pos * step + leaf % step == leaf) by (nonlinear_arith)
                    requires
                        leaf == step * (leaf / step) + leaf % step,
                        pos == leaf / step,
                ;
            }
            assert((2 * sib + 1) * step <= 2 * leaf + 3 * step) by (nonlinear_arith)
                requires
                    pos * step <= leaf,
                    sib <= pos + 1,
            ;
            let idx: u64 = (2 * sib + 1) * step;
            assert(sib == sibling_pos(pos as nat));
            assert(idx == s);
            if !stopped && idx <= bound {
                path_nodes.push((InOrderIndex { idx }, merkle_path[k]));
            } else {
                stopped = true;
            }
            proof {
                lemma_div_denominator(leaf as int, step as int, 2);
            }
            pos = pos / 2;
            if step <= bound / 2 {
                step = step * 2;
            } else {
                in_range = false;
            }
        } else {
            assert(s >= pow2(k as nat)) by (nonlinear_arith)
                requires
                    s == (2 * sibling_pos(leaf as nat / pow2(k as nat)) + 1) * pow2(k as nat),
            ;
            stopped = true;
        }
        proof {
            assert(nodes_view(path_nodes@) =~= trimmed_prefix(
                merkle_path@,
                leaf as nat,
                bound as nat,
                (k + 1) as nat,
            ));
        }
        k = k + 1;
    }
    path_nodes
}

/// The first `n` steps of trimming read only the first `n` siblings of a path.
pub proof fn lemma_trimmed_prefix_reads_prefix(
    path: Seq<Digest>,
    longer: Seq<Digest>,
    leaf: nat,
    bound: nat,
    n: nat,
)
    requires
        n <= path.len() <= longer.len(),
        path == longer.subrange(0, path.len() as int),
    ensures
        trimmed_prefix(path, leaf, bound, n) == trimmed_prefix(longer, leaf, bound, n),
    decreases n,
{
    if n > 0 {
        lemma_trimmed_prefix_reads_prefix(path, longer, leaf, bound, (n - 1) as nat);
        assert(path[n - 1] == longer[n - 1]);
    }
}

/// Trimming keeps at most one entry per sibling.
pub proof fn lemma_trimmed_prefix_len(path: Seq<Digest>, leaf: nat, bound: nat, n: nat)
    ensures
        trimmed_prefix(path, leaf, bound, n).len() <= n,
    decreases n,
{
    if n > 0 {
        lemma_trimmed_prefix_len(path, leaf, bound, (n - 1) as nat);
    }
}

/// Once trimming has stopped, later siblings add nothing.
proof fn lemma_trim_stopped(path: Seq<Digest>, leaf: nat, bound: nat, m: nat, n: nat)
    requires
        m <= n <= path.len(),
        trimmed_prefix(path, leaf, bound, m).len() < m,
    ensures
        trimmed_prefix(path, leaf, bound, n) == trimmed_prefix(path, leaf, bound, m),
    decreases n - m,
{
    if n > m {
        lemma_trim_stopped(path, leaf, bound, m, (n - 1) as nat);
    }
}

/// Trimming ignores how far beyond the local forest a path reaches: a path
/// extended by more siblings trims to the same nodes as the path itself
/// whenever trimming of the shorter path has already stopped, or the first
/// added sibling lies past the rightmost leaf of the local forest. These are
/// exactly the cases where a path for the same leaf produced for a larger
/// forest gives the same trimmed nodes: otherwise the longer path keeps one
/// more node.
pub proof fn lemma_trim_ignores_longer_path(
    path: Seq<Digest>,
    extra: Seq<Digest>,
    leaf: nat,
    forest: nat,
)
    requires
        forest > 0,
        extra.len() > 0 ==> (trimmed_path(path, leaf, forest).len() < path.len()
            || path_sibling_index(leaf, path.len()) > 2 * forest - 1),
    ensures
        trimmed_path(path + extra, leaf, forest) == trimmed_path(path, leaf, forest),
{
    let longer = path + extra;
    let bound = (2 * forest - 1) as nat;
    let m = path.len();
    if extra.len() == 0 {
        assert(longer =~= path);
    } else {
        assert(path =~= longer.subrange(0, m as int));
        lemma_trimmed_prefix_reads_prefix(path, longer, leaf, bound, m);
        lemma_trimmed_prefix_len(longer, leaf, bound, m);
        if trimmed_prefix(longer, leaf, bound, m).len() < m {
            lemma_trim_stopped(longer, leaf, bound, m, longer.len());
        } else {
            assert(trimmed_prefix(longer, leaf, bound, m + 1) == trimmed_prefix(
                longer,
                leaf,
                bound,
                m,
            ));
            lemma_trim_stopped(longer, leaf, bound, m + 1, longer.len());
        }
    }
}

/// The sibling at a level whose subtrees hold more leaves than twice the
/// local forest lies past the rightmost leaf. Hence a path that reaches such a
/// level trims to the same nodes however much longer the remote path is.
pub proof fn lemma_trim_stable_beyond_forest_height(
    path: Seq<Digest>,
    extra: Seq<Digest>,
    leaf: nat,
    forest: nat,
)
    requires
        forest > 0,
        pow2(path.len()) > 2 * forest - 1,
    ensures
        trimmed_path(path + extra, leaf, forest) == trimmed_path(path, leaf, forest),
{
    let k = path.len();
    let s = sibling_pos(leaf / pow2(k));
    assert((2 * s + 1) * pow2(k) >= pow2(k)) by (nonlinear_arith);
    assert(path_sibling_index(leaf, k) > 2 * forest - 1);
    lemma_trim_ignores_longer_path(path, extra, leaf, forest);
}

/// The part of a block header that synchronization reads.
#[derive(Clone, Copy, Debug, PartialEq, Eq, Structural)]
pub struct BlockHeader {
    pub block_num: u32,
    pub commitment: Digest,
    pub prev_block_commitment: Digest,
}

/// What is persisted once a fetched block header has been authenticated: the
/// header, the peaks to store beside it, and the new authentication nodes.
pub struct AuthenticatedBlock {
    pub header: BlockHeader,
    pub peaks: MmrPeaks,
    pub path_nodes: Vec<(InOrderIndex, Digest)>,
}

/// The digests of trimmed path nodes, in order.
pub open spec fn node_digests(nodes: Seq<(nat, Digest)>) -> Seq<Digest> {
    nodes.map_values(|e: (nat, Digest)| e.1)
}

/// Authenticates `header`, fetched for block `block_num` with the path
/// `merkle_path` from a forest that may be larger than the local one: the path
/// is trimmed to the local forest and the leaf is tracked with it. Nothing
/// changes in `current_partial_mmr` unless the header is authenticated.
pub fn authenticate_block_header(
    current_partial_mmr: &mut PartialMmr,
    block_num: u32,
    header: BlockHeader,
    merkle_path: &Vec<Digest>,
) -> (r: Result<AuthenticatedBlock, MmrError>)
    requires
        old(current_partial_mmr).wf(),
    ensures
        final(current_partial_mmr).wf(),
        block_num >= old(current_partial_mmr)@.forest ==> r is Err && r->Err_0
            == MmrError::UnknownLeaf,
        block_num < old(current_partial_mmr)@.forest ==> {
            let trimmed = trimmed_path(
                merkle_path@,
                block_num as nat,
                old(current_partial_mmr)@.forest,
            );
            &&& r is Ok <==> path_matches(
                old(current_partial_mmr)@,
                block_num as nat,
                header.commitment,
                node_digests(trimmed),
            )
            &&& r is Err ==> r->Err_0 == MmrError::PeakMismatch
            &&& r matches Ok(b) ==> {
                &&& b.header == header
                &&& nodes_view(b.path_nodes@) == trimmed
                &&& b.peaks@.forest == old(current_partial_mmr)@.forest
                &&& b.peaks@.peaks == old(current_partial_mmr)@.peaks
                &&& leaf_tracked(final(current_partial_mmr)@, block_num as nat)
                &&& final(current_partial_mmr)@.nodes == with_path_nodes(
                    old(current_partial_mmr)@.nodes,
                    block_num as nat,
                    node_digests(trimmed),
                    trimmed.len(),
                )
                &&& final(current_partial_mmr)@.track_latest == (old(
                    current_partial_mmr,
                )@.track_latest || trimmed.len() == 0)
            }
        },
        r is Err ==> final(current_partial_mmr)@ == old(current_partial_mmr)@,
        final(current_partial_mmr)@.forest == old(current_partial_mmr)@.forest,
        final(current_partial_mmr)@.peaks == old(current_partial_mmr)@.peaks,
{
    let forest = current_partial_mmr.forest();
    if block_num as usize >= forest {
        return Err(MmrError::UnknownLeaf);
    }
    let path_nodes = adjust_merkle_path_for_forest(merkle_path, block_num, forest);
    let mut siblings: Vec<Digest> = Vec::new();
    let mut i: usize = 0;
    while i < path_nodes.len()
        invariant
            i <= path_nodes@.len(),
            siblings@ == node_digests(nodes_view(path_nodes@)).subrange(0, i as int),
        decreases path_nodes@.len() - i,
    {
        siblings.push(path_nodes[i].1);
        i = i + 1;
        assert(siblings@ =~= node_digests(nodes_view(path_nodes@)).subrange(0, i as int));
    }
    assert(siblings@ =~= node_digests(nodes_view(path_nodes@)));
    match current_partial_mmr.track(block_num as usize, header.commitment, &siblings) {
        Ok(()) => {
            let peaks = current_partial_mmr.peaks();
            Ok(AuthenticatedBlock { header, peaks, path_nodes })
        },
        Err(e) => Err(e),
    }
}

/// Rebuilds the partial MMR of the synchronized chain from what the store
/// holds: the peaks stored with the current block (those of the chain before
/// it), the current block's commitment, whether it holds notes of the client,
/// and every tracked authentication node.
pub fn build_current_partial_mmr(
    current_peaks: MmrPeaks,
    current_block: &BlockHeader,
    has_client_notes: bool,
    tracked_nodes: Vec<(InOrderIndex, Digest)>,
) -> (r: PartialMmr)
    requires
        current_peaks.wf(),
        current_peaks@.forest < MAX_FOREST as nat,
        current_peaks@.forest < usize::MAX,
    ensures
        r.wf(),
        r@.forest == current_peaks@.forest + 1,
        r@.peaks == appended_peaks(
            current_peaks@.peaks,
            current_peaks@.forest,
            current_block.commitment,
        ),
        r@.nodes == nodes_map(tracked_nodes@),
        r@.track_latest == has_client_notes,
{
    let mut current_partial_mmr = PartialMmr::from_peaks(current_peaks);
    current_partial_mmr.add(current_block.commitment, has_client_notes);
    PartialMmr::from_parts(current_partial_mmr.peaks(), tracked_nodes, has_client_notes)
}

} // verus!
