//! Accumulated state of one distributed key generation run: the joint
//! commitment across dealers, deduplicated by commitment hash, and the
//! vote count backing it.

use vstd::prelude::*;
use crate::poly::{
    commitment_hash_of, pc_add, AffinePolynomialCommitment, PolynomialCommitment, H256,
};

verus! {

pub struct DkgState {
    num_nodes: usize,
    num_votes: usize,
    commitment: PolynomialCommitment,
    commitment_hashes: Vec<H256>,
}

impl DkgState {
    pub closed spec fn nodes(&self) -> int {
        self.num_nodes as int
    }

    pub closed spec fn votes(&self) -> int {
        self.num_votes as int
    }

    /// The running coefficient-wise sum of the accepted dealer
    /// commitments.
    pub closed spec fn logs(&self) -> Seq<nat> {
        self.commitment.logs()
    }

    /// Whether a dealing with this hash has been accepted.
    pub closed spec fn has_hash(&self, h: Seq<u8>) -> bool {
        exists|i: int|
            0 <= i < self.commitment_hashes@.len() && self.commitment_hashes@[i]@ == h
    }

    pub closed spec fn hash_count(&self) -> int {
        self.commitment_hashes@.len() as int
    }

    pub closed spec fn well_formed(&self) -> bool {
        forall|i: int, j: int|
            0 <= i < j < self.commitment_hashes@.len() ==> self.commitment_hashes@[i]@
                != self.commitment_hashes@[j]@
    }

    pub fn new() -> (r: DkgState)
        ensures
            r.well_formed(),
            r.nodes() == 0,
            r.votes() == 0,
            r.logs().len() == 0,
            forall|h: Seq<u8>| !r.has_hash(h),
    {
        DkgState {
            num_nodes: 0,
            num_votes: 0,
            commitment: PolynomialCommitment::new(Vec::new()),
            commitment_hashes: Vec::new(),
        }
    }

    /// Accepts one dealer's commitment, counting its votes and adding it
    /// into the joint commitment. A commitment whose hash was already
    /// accepted changes nothing.
    pub fn receive_new_commitment(
        &mut self,
        node_votes: usize,
        commitments: AffinePolynomialCommitment,
    )
        requires
            old(self).well_formed(),
            old(self).votes() + node_votes <= usize::MAX,
            old(self).nodes() + 1 <= usize::MAX,
        ensures
            final(self).well_formed(),
            old(self).has_hash(commitment_hash_of(commitments.logs())) ==> *final(self) == *old(
                self,
            ),
            !old(self).has_hash(commitment_hash_of(commitments.logs())) ==> {
                &&& final(self).nodes() == old(self).nodes() + 1
                &&& final(self).votes() == old(self).votes() + node_votes
                &&& final(self).logs() == pc_add(old(self).logs(), commitments.logs())
                &&& final(self).has_hash(commitment_hash_of(commitments.logs()))
            },
            forall|h2: Seq<u8>|
                h2 != commitment_hash_of(commitments.logs()) ==> (#[trigger] final(self).has_hash(
                    h2,
                )) == old(self).has_hash(h2),
    {
        let hash = commitments.hash();
        let ghost h = hash@;

        let mut i: usize = 0;
        while i < self.commitment_hashes.len()
            invariant
                0 <= i <= self.commitment_hashes@.len(),
                h == hash@,
                h == commitment_hash_of(commitments.logs()),
                *self == *old(self),
                old(self).well_formed(),
                forall|k: int| 0 <= k < i ==> (#[trigger] self.commitment_hashes@[k])@ != h,
            decreases self.commitment_hashes@.len() - i,
        {
            if self.commitment_hashes[i].eq_hash(&hash) {
                proof {
                    assert(old(self).commitment_hashes@[i as int]@ == h);
                    assert(old(self).has_hash(commitment_hash_of(commitments.logs())));
                }
                return ;
            }
            i = i + 1;
        }

        let ghost old_hashes = self.commitment_hashes@;
        self.commitment_hashes.push(hash);
        self.num_nodes = self.num_nodes + 1;
        self.num_votes = self.num_votes + node_votes;
        let summed = crate::poly::add_commitment(&self.commitment, &commitments.to_projective());
        self.commitment = summed;
        proof {
            let n = old_hashes.len() as int;
            assert(self.commitment_hashes@[n]@ == h);
            assert forall|a: int, b: int|
                0 <= a < b < self.commitment_hashes@.len() implies self.commitment_hashes@[a]@
                != self.commitment_hashes@[b]@ by {
                if b < n {
                    assert(old_hashes[a]@ != old_hashes[b]@);
                } else {
                    assert(self.commitment_hashes@[a]@ == old_hashes[a]@);
                    assert(old_hashes[a]@ != h);
                }
            }
            assert forall|h2: Seq<u8>| h2 != h implies (#[trigger] self.has_hash(h2)) == old(
                self,
            ).has_hash(h2) by {
                if self.has_hash(h2) {
                    let k = choose|k: int|
                        0 <= k < self.commitment_hashes@.len() && self.commitment_hashes@[k]@
                            == h2;
                    if k == n {
                        assert(self.commitment_hashes@[k]@ == h);
                    }
                    assert(old_hashes[k]@ == h2);
                }
                if old(self).has_hash(h2) {
                    let k = choose|k: int| 0 <= k < old_hashes.len() && old_hashes[k]@ == h2;
                    assert(self.commitment_hashes@[k]@ == h2);
                }
            }
        }
    }

    /// The committed secret of the joint sharing so far: the constant
    /// term, the identity while nothing was dealt.
    pub fn commit_secret(&self) -> (r: k256::ProjectivePoint)
        ensures
            crate::curve::point_log(r) == if self.logs().len() == 0 {
                0nat
            } else {
                self.logs()[0]
            },
    {
        self.commitment.constant_term()
    }

    pub fn has_enough_votes(&self, votes: usize) -> (r: bool)
        ensures
            r == (self.votes() >= votes),
    {
        self.num_votes >= votes
    }

    pub fn commitment(&self) -> (r: &PolynomialCommitment)
        ensures
            r.logs() == self.logs(),
    {
        &self.commitment
    }

    pub fn commitment_hashes(&self) -> (r: &Vec<H256>)
        ensures
            r@.len() == self.hash_count(),
            forall|i: int| 0 <= i < r@.len() ==> self.has_hash((#[trigger] r@[i])@),
            forall|h: Seq<u8>|
                #[trigger] self.has_hash(h) ==> exists|i: int| 0 <= i < r@.len() && r@[i]@ == h,
    {
        &self.commitment_hashes
    }
}

} // verus!
