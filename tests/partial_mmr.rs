use miden_client::digest::Digest;
use miden_client::partial_mmr::{MmrError, MmrPeaks, PartialMmr};
use miden_objects::crypto::merkle::Mmr;
use miden_objects::Felt;

fn leaf(i: u64) -> Digest {
    Digest::new(i + 1, 3 * i + 7, 11, 13)
}

fn to_reference(d: &Digest) -> miden_objects::Digest {
    miden_objects::Digest::new([Felt::new(d.w0), Felt::new(d.w1), Felt::new(d.w2), Felt::new(d.w3)])
}

fn from_reference(d: &miden_objects::Digest) -> Digest {
    let w: [u64; 4] = (*d).into();
    Digest::new(w[0], w[1], w[2], w[3])
}

fn merge(a: &Digest, b: &Digest) -> Digest {
    from_reference(&miden_objects::Hasher::merge(&[to_reference(a), to_reference(b)]))
}

fn empty_mmr() -> PartialMmr {
    PartialMmr::from_peaks(MmrPeaks::new(0, vec![]).unwrap())
}

fn reference_mmr(n: u64) -> Mmr {
    let mut mmr = Mmr::new();
    for i in 0..n {
        mmr.add(to_reference(&leaf(i)));
    }
    mmr
}

fn reference_path(mmr: &Mmr, pos: usize, forest: usize) -> Vec<Digest> {
    let proof = mmr.open_at(pos, forest).unwrap();
    proof.merkle_path.nodes().iter().map(from_reference).collect()
}

#[test]
fn appended_leaves_are_hashed_into_peaks() {
    let mut mmr = empty_mmr();
    mmr.add(leaf(0), false);
    mmr.add(leaf(1), false);
    let peak = mmr.peaks().peaks()[0];
    assert_ne!(peak, leaf(0));
    assert_ne!(peak, leaf(1));
    assert_ne!(peak, merge(&leaf(1), &leaf(0)));
    assert_eq!(peak, merge(&leaf(0), &leaf(1)));
}

#[test]
fn forest_of_seven_has_three_peaks_and_tracks_leaf_three() {
    let mut mmr = empty_mmr();
    let leaves: Vec<Digest> = (0..7).map(leaf).collect();
    for l in &leaves {
        mmr.add(*l, false);
    }
    assert_eq!(mmr.forest(), 7);
    assert_eq!(mmr.peaks().peaks().len(), 3);
    let path = vec![leaves[2], merge(&leaves[0], &leaves[1])];
    assert_eq!(mmr.track(3, leaves[3], &path), Ok(()));
    assert!(mmr.is_tracked(3));
    assert!(!mmr.is_tracked(4));
}

#[test]
fn peaks_match_reference_mmr_and_count_set_bits() {
    let mut mmr = empty_mmr();
    let mut reference = Mmr::new();
    for i in 0..70u64 {
        mmr.add(leaf(i), i % 3 == 0);
        reference.add(to_reference(&leaf(i)));
        let expected: Vec<Digest> = reference.peaks().peaks().iter().map(from_reference).collect();
        assert_eq!(mmr.peaks().peaks(), &expected);
        assert_eq!(mmr.peaks().peaks().len() as u32, (i + 1).count_ones());
        assert_eq!(mmr.peaks().num_leaves(), (i + 1) as usize);
    }
}

#[test]
fn correct_paths_track_and_flipped_bits_mismatch() {
    let reference = reference_mmr(40);
    for forest in 1..40usize {
        let peaks: Vec<Digest> =
            reference.peaks_at(forest).unwrap().peaks().iter().map(from_reference).collect();
        for pos in 0..forest {
            let path = reference_path(&reference, pos, forest);
            let base = PartialMmr::from_peaks(MmrPeaks::new(forest, peaks.clone()).unwrap());

            let mut mmr = PartialMmr::from_peaks(MmrPeaks::new(forest, peaks.clone()).unwrap());
            assert!(!mmr.is_tracked(pos));
            assert_eq!(mmr.track(pos, leaf(pos as u64), &path), Ok(()));
            assert!(mmr.is_tracked(pos));
            assert_eq!(mmr.peaks().peaks(), base.peaks().peaks());

            let mut flipped = path.clone();
            let mut bad_leaf = leaf(pos as u64);
            if flipped.is_empty() {
                bad_leaf.w1 ^= 1;
            } else {
                flipped[0].w2 ^= 1;
            }
            let mut other = PartialMmr::from_peaks(MmrPeaks::new(forest, peaks.clone()).unwrap());
            assert_eq!(other.track(pos, bad_leaf, &flipped), Err(MmrError::PeakMismatch));
            assert!(!other.is_tracked(pos));
        }
    }
}

#[test]
fn track_rejects_leaf_outside_forest() {
    let mut mmr = empty_mmr();
    for i in 0..5 {
        mmr.add(leaf(i), false);
    }
    assert_eq!(mmr.track(5, leaf(5), &vec![]), Err(MmrError::UnknownLeaf));
    assert_eq!(mmr.track(9, leaf(9), &vec![leaf(1)]), Err(MmrError::UnknownLeaf));
    assert!(!mmr.is_tracked(5));
}

#[test]
fn track_rejects_path_of_wrong_length() {
    let reference = reference_mmr(8);
    let mut mmr = empty_mmr();
    for i in 0..8 {
        mmr.add(leaf(i), false);
    }
    let mut path = reference_path(&reference, 2, 8);
    path.pop();
    assert_eq!(mmr.track(2, leaf(2), &path), Err(MmrError::PeakMismatch));
}

#[test]
fn added_leaf_is_tracked_when_asked() {
    let mut mmr = empty_mmr();
    for i in 0..12u64 {
        mmr.add(leaf(i), i == 5 || i == 10);
    }
    assert!(mmr.is_tracked(5));
    assert!(mmr.is_tracked(10));
    assert!(!mmr.is_tracked(4));
    assert!(!mmr.is_tracked(11));
    assert!(!mmr.is_tracked(12));
}

#[test]
fn last_leaf_of_odd_forest_is_tracked_by_flag() {
    let mut mmr = empty_mmr();
    let nodes = mmr.add(leaf(0), true);
    assert!(nodes.is_empty());
    assert!(mmr.is_tracked(0));
    let nodes = mmr.add(leaf(1), false);
    assert_eq!(nodes.len(), 1);
    assert_eq!(nodes[0].0.inner(), 3);
    assert_eq!(nodes[0].1, leaf(1));
    assert!(mmr.is_tracked(0));
    assert!(!mmr.is_tracked(1));
}

#[test]
fn peaks_must_fit_forest() {
    assert_eq!(MmrPeaks::new(3, vec![leaf(0)]).unwrap_err(), MmrError::InvalidPeaks);
    assert_eq!(MmrPeaks::new(0, vec![leaf(0)]).unwrap_err(), MmrError::InvalidPeaks);
    let p = MmrPeaks::new(5, vec![leaf(0), leaf(1)]).unwrap();
    assert_eq!(p.num_leaves(), 5);
    assert_eq!(p.peaks(), &vec![leaf(0), leaf(1)]);
}
