//! Hash digests and the two-to-one hash the Merkle structures are built with.
use vstd::prelude::*;

use miden_objects::{Felt, Hasher};

verus! {

/// A digest of four field elements, each held as its canonical integer value.
#[derive(Clone, Copy, Debug, PartialEq, Eq, Hash, Structural)]
pub struct Digest {
    pub w0: u64,
    pub w1: u64,
    pub w2: u64,
    pub w3: u64,
}

impl Digest {
    /// Builds a digest from its four elements.
    pub fn new(w0: u64, w1: u64, w2: u64, w3: u64) -> (r: Digest)
        ensures
            r == (Digest { w0, w1, w2, w3 }),
    {
        Digest { w0, w1, w2, w3 }
    }

    /// The four elements, first to last.
    pub fn elements(&self) -> (r: [u64; 4])
        ensures
            r@ == seq![self.w0, self.w1, self.w2, self.w3],
    {
        [self.w0, self.w1, self.w2, self.w3]
    }
}

/// The RPO-256 hash of a left and a right digest.
pub uninterp spec fn merge_of(left: Digest, right: Digest) -> Digest;

/// Relies on `miden_objects::Hasher::merge` (RPO-256 over two digests): its
/// result depends on the two digests alone.
#[verifier::external_body]
pub(crate) fn merge(left: &Digest, right: &Digest) -> (r: Digest)
    ensures
        r == merge_of(*left, *right),
{
    let l = [Felt::new(left.w0), Felt::new(left.w1), Felt::new(left.w2), Felt::new(left.w3)];
    let r = [Felt::new(right.w0), Felt::new(right.w1), Felt::new(right.w2), Felt::new(right.w3)];
    let out: [u64; 4] = Hasher::merge(&[l.into(), r.into()]).into();
    Digest { w0: out[0], w1: out[1], w2: out[2], w3: out[3] }
}

} // verus!
