use miden_client::digest::Digest;
use miden_client::in_order::InOrderIndex;
use miden_client::partial_mmr::{MmrError, MmrPeaks, PartialMmr};
use miden_client::sync::{
    adjust_merkle_path_for_forest, authenticate_block_header, build_current_partial_mmr,
    BlockHeader,
};
use miden_objects::crypto::merkle::Mmr;
use miden_objects::Felt;

fn leaf(i: u64) -> Digest {
    Digest::new(i + 1, 3 * i + 7, 11, 13)
}

fn to_reference(d: &Digest) -> miden_objects::Digest {
    miden_objects::Digest::new([Felt::new(d.w0), Felt::new(d.w1), Felt::new(d.w2), Felt::new(d.w3)])
}

fn from_reference(d: &miden_objects::Digest) -> Digest {
    let w: [u64; 4] = (*d).into();
    Digest::new(w[0], w[1], w[2], w[3])
}

fn reference_mmr(n: u64) -> Mmr {
    let mut mmr = Mmr::new();
    for i in 0..n {
        mmr.add(to_reference(&leaf(i)));
    }
    mmr
}

fn reference_path(mmr: &Mmr, pos: usize, forest: usize) -> Vec<Digest> {
    let proof = mmr.open_at(pos, forest).unwrap();
    proof.merkle_path.nodes().iter().map(from_reference).collect()
}

fn reference_peaks(mmr: &Mmr, forest: usize) -> MmrPeaks {
    let peaks = mmr.peaks_at(forest).unwrap().peaks().iter().map(from_reference).collect();
    MmrPeaks::new(forest, peaks).unwrap()
}

fn header(i: u64) -> BlockHeader {
    BlockHeader { block_num: i as u32, commitment: leaf(i), prev_block_commitment: leaf(i + 500) }
}

fn indices(nodes: &[(InOrderIndex, Digest)]) -> Vec<u64> {
    nodes.iter().map(|(i, _)| i.inner()).collect()
}

#[test]
fn trimming_keeps_siblings_up_to_rightmost_leaf() {
    let reference = reference_mmr(1024);
    let path = reference_path(&reference, 3, 1008);
    assert_eq!(path.len(), 9);
    let trimmed = adjust_merkle_path_for_forest(&path, 3, 8);
    assert_eq!(indices(&trimmed), vec![5, 2, 12]);
    assert_eq!(trimmed.iter().map(|(_, d)| *d).collect::<Vec<_>>(), path[..3].to_vec());
}

#[test]
fn trimming_is_independent_of_remote_forest_size() {
    let reference = reference_mmr(1100);
    for (leaf_pos, local) in [(3usize, 8usize), (4, 10), (0, 16), (6, 8)] {
        let near = reference_path(&reference, leaf_pos, local + 1);
        let far = reference_path(&reference, leaf_pos, local + 1000);
        assert!(far.len() > near.len());
        let a = adjust_merkle_path_for_forest(&near, leaf_pos as u32, local);
        let b = adjust_merkle_path_for_forest(&far, leaf_pos as u32, local);
        assert_eq!(a, b);
    }
}

#[test]
fn trimming_stops_at_first_sibling_past_rightmost_leaf() {
    let reference = reference_mmr(1100);
    let near = reference_path(&reference, 4, 6);
    let far = reference_path(&reference, 4, 1005);
    assert_eq!(near.len(), 1);
    assert_eq!(far.len(), 9);
    assert!(adjust_merkle_path_for_forest(&near, 4, 5).is_empty());
    assert!(adjust_merkle_path_for_forest(&far, 4, 5).is_empty());
}

#[test]
fn trimming_keeps_leading_siblings_only() {
    let reference = reference_mmr(1024);
    let path = reference_path(&reference, 2, 1024);
    // Leaf 2 in a forest of 3: its sibling, leaf 3, is already past the last leaf.
    assert!(adjust_merkle_path_for_forest(&path, 2, 3).is_empty());
    // In a forest of 14, leaf 2 keeps its siblings while they stay within leaf 13.
    let trimmed = adjust_merkle_path_for_forest(&path, 2, 14);
    assert_eq!(indices(&trimmed), vec![7, 2, 12, 24]);
}

#[test]
fn node_path_authenticates_last_single_leaf_tree() {
    let remote = reference_mmr(8);
    let mut mmr = build_current_partial_mmr(reference_peaks(&remote, 4), &header(4), false, vec![]);
    assert_eq!(mmr.forest(), 5);
    let path = reference_path(&remote, 4, 8);
    assert_eq!(path.len(), 3);
    let block = authenticate_block_header(&mut mmr, 4, header(4), &path).ok().unwrap();
    assert!(block.path_nodes.is_empty());
    assert!(mmr.is_tracked(4));
}

#[test]
fn trimming_an_empty_path_gives_nothing() {
    assert!(adjust_merkle_path_for_forest(&vec![], 0, 1).is_empty());
}

#[test]
fn rebuilt_mmr_has_peaks_of_whole_chain() {
    for n in 1..40u64 {
        let reference = reference_mmr(n);
        let stored = reference_peaks(&reference, (n - 1) as usize);
        let rebuilt = build_current_partial_mmr(stored, &header(n - 1), true, vec![]);
        let expected: Vec<Digest> = reference.peaks().peaks().iter().map(from_reference).collect();
        assert_eq!(rebuilt.forest(), n as usize);
        assert_eq!(rebuilt.peaks().peaks(), &expected);
        assert!(rebuilt.is_tracked((n - 1) as usize) || n % 2 == 0);
    }
}

#[test]
fn rebuilt_mmr_keeps_stored_nodes() {
    let reference = reference_mmr(6);
    let stored = reference_peaks(&reference, 5);
    let nodes = vec![(InOrderIndex::from_leaf_pos(1), leaf(1))];
    let rebuilt = build_current_partial_mmr(stored, &header(5), false, nodes);
    assert!(rebuilt.is_tracked(0));
    assert!(!rebuilt.is_tracked(5));
}

#[test]
fn fetched_header_is_authenticated_against_local_forest() {
    let remote = reference_mmr(1024);
    let mut mmr = build_current_partial_mmr(reference_peaks(&remote, 9), &header(9), true, vec![]);
    assert!(!mmr.is_tracked(4));
    let path = reference_path(&remote, 4, 1024);
    let block = authenticate_block_header(&mut mmr, 4, header(4), &path).ok().unwrap();
    assert_eq!(block.header, header(4));
    assert_eq!(indices(&block.path_nodes), vec![11, 14, 4]);
    assert_eq!(block.peaks.num_leaves(), 10);
    assert!(mmr.is_tracked(4));
}

#[test]
fn forged_header_is_rejected_and_changes_nothing() {
    let remote = reference_mmr(1024);
    let mut mmr = build_current_partial_mmr(reference_peaks(&remote, 9), &header(9), true, vec![]);
    let path = reference_path(&remote, 4, 1024);
    let mut forged = header(4);
    forged.commitment = leaf(77);
    let r = authenticate_block_header(&mut mmr, 4, forged, &path);
    assert_eq!(r.err(), Some(MmrError::PeakMismatch));
    assert!(!mmr.is_tracked(4));
    let r = authenticate_block_header(&mut mmr, 10, header(10), &path);
    assert_eq!(r.err(), Some(MmrError::UnknownLeaf));
}
