//! A member's private signing state: its raw signing shares and its
//! pre-committed nonce pairs. Neither ever leaves this structure; only
//! the nonce commitments and the computed signature shares do.

use vstd::prelude::*;
use crate::curve::{el_mul_base, point_log, scalar_random, scalar_val};
use crate::frost_error::FrostError;
use crate::frost_state::FrostEpochState;
use crate::ids::NodeID;
use crate::sign_task_manager::SignTaskID;

verus! {

pub struct SignManager {
    epoch: u64,
    current_id: NodeID,
    signing_shares: Vec<k256::Scalar>,
    signing_nonces: Vec<(k256::Scalar, k256::Scalar)>,
}

impl SignManager {
    pub closed spec fn epoch_spec(&self) -> u64 {
        self.epoch
    }

    pub closed spec fn nonces(&self) -> Seq<(k256::Scalar, k256::Scalar)> {
        self.signing_nonces@
    }

    pub closed spec fn shares(&self) -> Seq<k256::Scalar> {
        self.signing_shares@
    }

    pub closed spec fn current_id_spec(&self) -> NodeID {
        self.current_id
    }

    /// A signer for one epoch, with its member identifier and its raw
    /// signing shares, one per held vote.
    pub fn new(epoch: u64, current_id: NodeID, signing_shares: Vec<k256::Scalar>) -> (r: SignManager)
        ensures
            r.epoch_spec() == epoch,
            r.shares() == signing_shares@,
            r.nonces().len() == 0,
    {
        SignManager { epoch, current_id, signing_shares, signing_nonces: Vec::new() }
    }

    /// Draws fresh nonce pairs up to `start + length` and returns the
    /// commitments of the pairs in that range: each is the pair of points
    /// whose logarithms are the (hiding, binding) nonces.
    pub fn make_nonce_commitments(&mut self, start: usize, length: usize) -> (r: Vec<
        (k256::ProjectivePoint, k256::ProjectivePoint),
    >)
        requires
            start + length <= usize::MAX,
        ensures
            final(self).nonces().len() >= start + length,
            // already-drawn pairs stay where they are, so earlier
            // commitments remain valid
            forall|i: int|
                0 <= i < old(self).nonces().len() ==> #[trigger] final(self).nonces()[i] == old(
                    self,
                ).nonces()[i],
            r@.len() == length,
            forall|k: int|
                0 <= k < length ==> start + k < final(self).nonces().len() && point_log(
                    (#[trigger] r@[k]).0,
                ) == scalar_val(final(self).nonces()[start + k].0) && point_log(r@[k].1)
                    == scalar_val(final(self).nonces()[start + k].1),
            final(self).epoch_spec() == old(self).epoch_spec(),
            final(self).shares() == old(self).shares(),
    {
        let end = start + length;
        while self.signing_nonces.len() < end
            invariant
                self.epoch == old(self).epoch_spec(),
                self.signing_shares@ == old(self).shares(),
                self.current_id == old(self).current_id,
                self.signing_nonces@.len() >= old(self).nonces().len(),
                forall|i: int|
                    0 <= i < old(self).nonces().len() ==> #[trigger] self.signing_nonces@[i]
                        == old(self).nonces()[i],
            decreases end - self.signing_nonces@.len(),
        {
            let d = scalar_random();
            let e = scalar_random();
            self.signing_nonces.push((d, e));
        }

        let mut out: Vec<(k256::ProjectivePoint, k256::ProjectivePoint)> = Vec::new();
        let mut k: usize = 0;
        while k < length
            invariant
                0 <= k <= length,
                start + length <= self.signing_nonces@.len(),
                self.epoch == old(self).epoch_spec(),
                self.signing_shares@ == old(self).shares(),
                end == start + length,
                out@.len() == k,
                forall|m: int|
                    0 <= m < k ==> point_log((#[trigger] out@[m]).0) == scalar_val(
                        self.signing_nonces@[start + m].0,
                    ) && point_log(out@[m].1) == scalar_val(self.signing_nonces@[start + m].1),
            decreases length - k,
        {
            let idx = start + k;
            let hiding = el_mul_base(&self.signing_nonces[idx].0);
            let binding = el_mul_base(&self.signing_nonces[idx].1);
            out.push((hiding, binding));
            k = k + 1;
        }
        out
    }

    /// Computes this member's signature share for an open task, `None`
    /// when the member does not take part or holds no nonce pair at the
    /// task's index.
    pub fn sign(&self, state: &FrostEpochState, sign_task_id: SignTaskID) -> (r: Result<
        Option<k256::Scalar>,
        FrostError,
    >)
        requires
            state.well_formed(),
        ensures
            r is Ok <==> state.manager().has_task(sign_task_id),
            // a member with coefficients, a bound commitment, and a
            // drawn nonce pair at the task's index computes a response
            r matches Ok(v) ==> (v is Some <==> state.manager().task_at(
                sign_task_id,
            ).has_coefficients(self.current_id_spec()) && state.manager().task_at(
                sign_task_id,
            ).has_commit_entry(self.current_id_spec().0 as u64) && state.manager().task_at(
                sign_task_id,
            ).nonce_index_spec() < self.nonces().len()),
    {
        let task = match state.sign_task(sign_task_id) {
            Ok(t) => t,
            Err(_) => {
                return Err(FrostError::UnknownSignTask);
            },
        };
        if task.nonce_index() >= self.signing_nonces.len() {
            return Ok(None);
        }
        Ok(task.sign(self.current_id, &self.signing_shares, &self.signing_nonces))
    }
}

} // verus!
