//! Per-epoch public artifacts of the FROST signing group: the verifying
//! key, the per-vote verifying shares, and which member holds which
//! evaluation points.

use vstd::prelude::*;
use crate::curve::point_log;
use crate::ids::NodeID;

verus! {

pub struct FrostPubKeyContext {
    pub epoch: u64,
    /// The group's public key.
    pub verifying_key: k256::ProjectivePoint,
    /// Per evaluation point (a positive identifier), the point whose
    /// logarithm is that share of the secret.
    pub verifying_shares: Vec<(u64, k256::ProjectivePoint)>,
    /// Per member, its evaluation points, in order.
    pub identifier_groups: Vec<(NodeID, Vec<u64>)>,
    /// The signing threshold, in votes.
    pub num_signing_shares: usize,
}

impl FrostPubKeyContext {
    /// Whether some verifying share carries the identifier.
    pub open spec fn has_share(&self, id: nat) -> bool {
        exists|i: int|
            0 <= i < self.verifying_shares@.len() && self.verifying_shares@[i].0 as nat == id
    }

    pub open spec fn share_index(&self, id: nat) -> int {
        choose|i: int|
            0 <= i < self.verifying_shares@.len() && self.verifying_shares@[i].0 as nat == id
    }

    /// The logarithm of the verifying share at the identifier.
    pub open spec fn share_log(&self, id: nat) -> nat {
        point_log(self.verifying_shares@[self.share_index(id)].1)
    }

    /// Whether a member is listed, and its evaluation points.
    pub open spec fn has_node(&self, id: NodeID) -> bool {
        exists|i: int|
            0 <= i < self.identifier_groups@.len() && self.identifier_groups@[i].0 == id
    }

    pub open spec fn node_index(&self, id: NodeID) -> int {
        choose|i: int|
            0 <= i < self.identifier_groups@.len() && self.identifier_groups@[i].0 == id
    }

    pub open spec fn identifiers_of(&self, id: NodeID) -> Seq<u64> {
        self.identifier_groups@[self.node_index(id)].1@
    }

    pub open spec fn well_formed(&self) -> bool {
        &&& forall|i: int, j: int|
            0 <= i < j < self.verifying_shares@.len() ==> self.verifying_shares@[i].0
                != self.verifying_shares@[j].0
        &&& forall|i: int, j: int|
            0 <= i < j < self.identifier_groups@.len() ==> self.identifier_groups@[i].0.0
                < self.identifier_groups@[j].0.0
    }

    pub fn verifying_key(&self) -> (r: &k256::ProjectivePoint)
        ensures
            point_log(*r) == point_log(self.verifying_key),
    {
        &self.verifying_key
    }

    pub fn verifying_shares(&self) -> (r: &Vec<(u64, k256::ProjectivePoint)>)
        ensures
            r == &self.verifying_shares,
    {
        &self.verifying_shares
    }

    /// The verifying share at the identifier, if one is listed.
    pub fn find_share(&self, id: u64) -> (r: Option<k256::ProjectivePoint>)
        requires
            self.well_formed(),
        ensures
            r is Some <==> self.has_share(id as nat),
            r is Some ==> point_log(r->0) == self.share_log(id as nat),
    {
        let mut i: usize = 0;
        while i < self.verifying_shares.len()
            invariant
                0 <= i <= self.verifying_shares@.len(),
                self.well_formed(),
                forall|k: int| 0 <= k < i ==> (#[trigger] self.verifying_shares@[k]).0 != id,
            decreases self.verifying_shares@.len() - i,
        {
            if self.verifying_shares[i].0 == id {
                let found = crate::curve::el_clone(&self.verifying_shares[i].1);
                proof {
                    assert(self.verifying_shares@[i as int].0 as nat == id as nat);
                    let j = self.share_index(id as nat);
                    assert(self.verifying_shares@[j].0 as nat == id as nat);
                    assert(self.verifying_shares@[j].0 == id);
                    if j != i as int {
                        assert(false);
                    }
                }
                return Some(found);
            }
            i = i + 1;
        }
        None
    }
}

} // verus!
