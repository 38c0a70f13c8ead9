//! One message's signing run.
//!
//! A task fixes the participants' nonce commitments, the message, and
//! the per-epoch public data; from them it derives the binding factors,
//! the group commitment and the Schnorr challenge. It then collects one
//! verified signature share per participant and aggregates them into a
//! Schnorr signature. Participants act under aggregated (per-member)
//! shares, so the outer Lagrange coefficient is always one.

use vstd::prelude::*;
use crate::curve::{
    el_add, el_clone, el_eq, el_identity, el_mul, el_mul_base, fadd, fmul, point_log, scalar_add,
    scalar_clone, scalar_mul, scalar_val, scalar_zero,
};
use crate::frost_error::FrostError;
use crate::frost_hash::{
    binding_factor_of, challenge_of, commit_model, compute_binding_factors, compute_challenge,
    CommitModel,
};
use crate::ids::NodeID;

verus! {

/// A Schnorr signature: the group commitment and the response scalar.
pub struct Signature {
    pub big_r: k256::ProjectivePoint,
    pub z: k256::Scalar,
}

impl Signature {
    /// The wire form: the group commitment's canonical 33-byte
    /// compressed encoding followed by the response scalar's 32-byte
    /// big-endian encoding.
    pub fn serialize(&self) -> (r: Vec<u8>)
        ensures
            r@ == crate::curve::point_enc(point_log(self.big_r)) + crate::curve::scalar_enc(
                scalar_val(self.z),
            ),
            r@.len() == 65,
    {
        let mut bytes = crate::curve::el_bytes(&self.big_r);
        let mut tail = crate::curve::scalar_bytes(&self.z);
        bytes.append(&mut tail);
        bytes
    }
}

/// The group commitment as a number: the sum over the commitment list
/// of `hiding + rho * binding`, each signer's binding factor taken over
/// the whole list.
pub open spec fn gc_sum(all: Seq<CommitModel>, cs: Seq<CommitModel>, msg: Seq<u8>, vk: nat) -> nat
    decreases cs.len(),
{
    if cs.len() == 0 {
        0
    } else {
        fadd(
            gc_sum(all, cs.drop_last(), msg, vk),
            fadd(
                cs.last().1,
                fmul(binding_factor_of(all, msg, vk, cs.last().0), cs.last().2),
            ),
        )
    }
}

/// The sum of the collected response scalars.
pub open spec fn share_sum(shares: Seq<(u64, k256::Scalar)>) -> nat
    decreases shares.len(),
{
    if shares.len() == 0 {
        0
    } else {
        fadd(share_sum(shares.drop_last()), scalar_val(shares.last().1))
    }
}

pub struct FrostSignTask {
    received_shares: Vec<(u64, k256::Scalar)>,
    binding_factor_list: Vec<(u64, k256::Scalar)>,
    challenge: k256::Scalar,
    group_commitment: k256::ProjectivePoint,
    signing_commitments: Vec<(u64, k256::ProjectivePoint, k256::ProjectivePoint)>,
    message: Vec<u8>,
    verifying_key: k256::ProjectivePoint,
    verifying_shares: Vec<(u64, k256::ProjectivePoint)>,
    all_identifiers: Vec<u64>,
    lagrange_coefficients: Vec<(NodeID, Vec<k256::Scalar>)>,
    nonce_index: usize,
}

impl FrostSignTask {
    pub closed spec fn commitments_model(&self) -> Seq<CommitModel> {
        commit_model(self.signing_commitments@)
    }

    pub closed spec fn message_spec(&self) -> Seq<u8> {
        self.message@
    }

    pub closed spec fn vk_log(&self) -> nat {
        point_log(self.verifying_key)
    }

    pub closed spec fn challenge_val(&self) -> nat {
        scalar_val(self.challenge)
    }

    pub closed spec fn gc_log(&self) -> nat {
        point_log(self.group_commitment)
    }

    pub closed spec fn received(&self) -> Seq<(u64, k256::Scalar)> {
        self.received_shares@
    }

    pub open spec fn has_received(&self, id: u64) -> bool {
        exists|i: int| 0 <= i < self.received().len() && (#[trigger] self.received()[i]).0 == id
    }

    pub closed spec fn idents(&self) -> Seq<u64> {
        self.all_identifiers@
    }

    pub open spec fn is_participant(&self, id: u64) -> bool {
        exists|i: int| 0 <= i < self.idents().len() && (#[trigger] self.idents()[i]) == id
    }

    pub closed spec fn shares_model(&self) -> Seq<(u64, nat)> {
        self.verifying_shares@.map_values(
            |p: (u64, k256::ProjectivePoint)| (p.0, point_log(p.1)),
        )
    }

    pub closed spec fn lagrange(&self) -> Seq<(NodeID, Vec<k256::Scalar>)> {
        self.lagrange_coefficients@
    }

    pub closed spec fn nonce_index_spec(&self) -> int {
        self.nonce_index as int
    }

    /// Whether a verifying share is listed for the identifier.
    pub open spec fn has_share_entry(&self, id: u64) -> bool {
        exists|j: int|
            0 <= j < self.shares_model().len() && (#[trigger] self.shares_model()[j]).0 == id
    }

    /// Whether a bound nonce commitment is listed for the identifier.
    pub open spec fn has_commit_entry(&self, id: u64) -> bool {
        exists|i: int|
            0 <= i < self.commitments_model().len() && (#[trigger] self.commitments_model()[i]).0
                == id as nat
    }

    /// Whether the member has a coefficient vector, and a non-empty one.
    pub open spec fn has_coefficients(&self, node: NodeID) -> bool {
        exists|i: int|
            0 <= i < self.lagrange().len() && (#[trigger] self.lagrange()[i]).0 == node
                && self.lagrange()[i].1@.len() > 0
    }

    /// The verification equation of the share for identifier `id`, with
    /// response value `z`: `z * G == R_i + c * Y_i` where `R_i` is the
    /// signer's bound commitment and `Y_i` its verifying share.
    pub open spec fn share_verifies(&self, id: u64, z: nat) -> bool {
        exists|i: int, j: int|
            {
                &&& 0 <= i < self.commitments_model().len()
                &&& (#[trigger] self.commitments_model()[i]).0 == id as nat
                &&& 0 <= j < self.shares_model().len()
                &&& (#[trigger] self.shares_model()[j]).0 == id
                &&& z == fadd(
                    fadd(
                        self.commitments_model()[i].1,
                        fmul(
                            binding_factor_of(
                                self.commitments_model(),
                                self.message_spec(),
                                self.vk_log(),
                                id as nat,
                            ),
                            self.commitments_model()[i].2,
                        ),
                    ),
                    fmul(self.challenge_val(), self.shares_model()[j].1),
                )
            }
    }

    pub closed spec fn well_formed(&self) -> bool {
        &&& self.all_identifiers@.len() == self.verifying_shares@.len()
        &&& forall|i: int|
            0 <= i < self.all_identifiers@.len() ==> (#[trigger] self.all_identifiers@[i])
                == self.verifying_shares@[i].0
        &&& forall|i: int, j: int|
            0 <= i < j < self.verifying_shares@.len() ==> self.verifying_shares@[i].0
                != self.verifying_shares@[j].0
        &&& forall|i: int, j: int|
            0 <= i < j < self.signing_commitments@.len() ==> self.signing_commitments@[i].0
                != self.signing_commitments@[j].0
        &&& forall|i: int, j: int|
            0 <= i < j < self.received_shares@.len() ==> self.received_shares@[i].0
                != self.received_shares@[j].0
        &&& forall|i: int|
            0 <= i < self.received_shares@.len() ==> self.is_participant(
                (#[trigger] self.received_shares@[i]).0,
            )
        &&& forall|i: int|
            0 <= i < self.received_shares@.len() ==> self.share_verifies(
                (#[trigger] self.received_shares@[i]).0,
                scalar_val(self.received_shares@[i].1),
            )
        &&& forall|i: int, j: int|
            0 <= i < j < self.lagrange_coefficients@.len() ==> self.lagrange_coefficients@[i].0
                != self.lagrange_coefficients@[j].0
        &&& self.binding_factor_list@.len() == self.signing_commitments@.len()
        &&& forall|i: int|
            0 <= i < self.binding_factor_list@.len()
                ==> (#[trigger] self.binding_factor_list@[i]).0 == self.signing_commitments@[i].0
                && scalar_val(self.binding_factor_list@[i].1) == binding_factor_of(
                self.commitments_model(),
                self.message_spec(),
                self.vk_log(),
                self.signing_commitments@[i].0 as nat,
            )
        &&& self.gc_log() == gc_sum(
            self.commitments_model(),
            self.commitments_model(),
            self.message_spec(),
            self.vk_log(),
        )
        &&& self.challenge_val() == challenge_of(
            self.gc_log(),
            self.vk_log(),
            self.message_spec(),
        )
    }

    /// Builds a signing task: derives every signer's binding factor, the
    /// group commitment, and the challenge over the message.
    pub fn new(
        signing_commitments: Vec<(u64, k256::ProjectivePoint, k256::ProjectivePoint)>,
        message: Vec<u8>,
        verifying_key: k256::ProjectivePoint,
        verifying_shares: Vec<(u64, k256::ProjectivePoint)>,
        lagrange_coefficients: Vec<(NodeID, Vec<k256::Scalar>)>,
        nonce_index: usize,
    ) -> (r: FrostSignTask)
        requires
            forall|i: int, j: int|
                0 <= i < j < signing_commitments@.len() ==> signing_commitments@[i].0
                    != signing_commitments@[j].0,
            forall|i: int, j: int|
                0 <= i < j < verifying_shares@.len() ==> verifying_shares@[i].0
                    != verifying_shares@[j].0,
            forall|i: int, j: int|
                0 <= i < j < lagrange_coefficients@.len() ==> lagrange_coefficients@[i].0
                    != lagrange_coefficients@[j].0,
        ensures
            r.well_formed(),
            r.commitments_model() == commit_model(signing_commitments@),
            r.message_spec() == message@,
            r.vk_log() == point_log(verifying_key),
            r.shares_model() == verifying_shares@.map_values(
                |p: (u64, k256::ProjectivePoint)| (p.0, point_log(p.1)),
            ),
            r.idents().len() == verifying_shares@.len(),
            forall|i: int|
                0 <= i < r.idents().len() ==> (#[trigger] r.idents()[i])
                    == verifying_shares@[i].0,
            r.received().len() == 0,
            r.lagrange() == lagrange_coefficients@,
            r.nonce_index_spec() == nonce_index,
            r.challenge_val() == challenge_of(
                gc_sum(
                    commit_model(signing_commitments@),
                    commit_model(signing_commitments@),
                    message@,
                    point_log(verifying_key),
                ),
                point_log(verifying_key),
                message@,
            ),
    {
        let ghost model = commit_model(signing_commitments@);
        let binding_factor_list = compute_binding_factors(
            &signing_commitments,
            &message,
            &verifying_key,
        );

        let mut group_commitment = el_identity();
        let mut i: usize = 0;
        proof {
            assert(model.take(0) =~= Seq::<CommitModel>::empty());
        }
        while i < signing_commitments.len()
            invariant
                0 <= i <= signing_commitments@.len(),
                model == commit_model(signing_commitments@),
                model.len() == signing_commitments@.len(),
                binding_factor_list@.len() == signing_commitments@.len(),
                forall|k: int|
                    0 <= k < binding_factor_list@.len()
                        ==> (#[trigger] binding_factor_list@[k]).0 == signing_commitments@[k].0
                        && scalar_val(binding_factor_list@[k].1) == binding_factor_of(
                        model,
                        message@,
                        point_log(verifying_key),
                        signing_commitments@[k].0 as nat,
                    ),
                point_log(group_commitment) == gc_sum(
                    model,
                    model.take(i as int),
                    message@,
                    point_log(verifying_key),
                ),
            decreases signing_commitments@.len() - i,
        {
            let bound = el_mul(&signing_commitments[i].2, &binding_factor_list[i].1);
            let r_i = el_add(&signing_commitments[i].1, &bound);
            group_commitment = el_add(&group_commitment, &r_i);
            proof {
                assert(model.take(i + 1).drop_last() =~= model.take(i as int));
                assert(model.take(i + 1).last() == model[i as int]);
            }
            i = i + 1;
        }
        proof {
            assert(model.take(model.len() as int) =~= model);
        }

        let challenge = compute_challenge(&group_commitment, &verifying_key, &message);

        let mut all_identifiers: Vec<u64> = Vec::new();
        let mut k: usize = 0;
        while k < verifying_shares.len()
            invariant
                0 <= k <= verifying_shares@.len(),
                all_identifiers@.len() == k,
                forall|m: int|
                    0 <= m < k ==> (#[trigger] all_identifiers@[m]) == verifying_shares@[m].0,
            decreases verifying_shares@.len() - k,
        {
            all_identifiers.push(verifying_shares[k].0);
            k = k + 1;
        }

        FrostSignTask {
            received_shares: Vec::new(),
            binding_factor_list,
            challenge,
            group_commitment,
            signing_commitments,
            message,
            verifying_key,
            verifying_shares,
            all_identifiers,
            lagrange_coefficients,
            nonce_index,
        }
    }

    pub fn message(&self) -> (r: &Vec<u8>)
        ensures
            r@ == self.message_spec(),
    {
        &self.message
    }

    pub fn nonce_index(&self) -> (r: usize)
        ensures
            r == self.nonce_index_spec(),
    {
        self.nonce_index
    }

    /// Whether every participant's share has arrived.
    pub fn all_shares_ready(&self) -> (r: bool)
        ensures
            r == (self.received().len() == self.idents().len()),
    {
        self.received_shares.len() == self.all_identifiers.len()
    }

    /// The participants whose shares are still missing.
    pub fn unsigned_nodes(&self) -> (r: Vec<u64>)
        ensures
            forall|i: int|
                0 <= i < r@.len() ==> self.is_participant(#[trigger] r@[i]) && !self.has_received(
                    r@[i],
                ),
            forall|i: int|
                0 <= i < self.idents().len() && !self.has_received(#[trigger] self.idents()[i])
                    ==> exists|k: int| 0 <= k < r@.len() && r@[k] == self.idents()[i],
    {
        let mut out: Vec<u64> = Vec::new();
        let mut i: usize = 0;
        while i < self.all_identifiers.len()
            invariant
                0 <= i <= self.idents().len(),
                forall|k: int|
                    0 <= k < out@.len() ==> self.is_participant(#[trigger] out@[k])
                        && !self.has_received(out@[k]),
                forall|m: int|
                    0 <= m < i && !self.has_received(#[trigger] self.idents()[m]) ==> exists|k: int|
                        0 <= k < out@.len() && out@[k] == self.idents()[m],
            decreases self.idents().len() - i,
        {
            let id = self.all_identifiers[i];
            let mut seen: bool = false;
            let mut j: usize = 0;
            while j < self.received_shares.len()
                invariant
                    0 <= j <= self.received().len(),
                    seen ==> self.has_received(id),
                    !seen ==> forall|k: int| 0 <= k < j ==> (#[trigger] self.received()[k]).0 != id,
                decreases self.received().len() - j,
            {
                if self.received_shares[j].0 == id {
                    seen = true;
                    proof {
                        assert((#[trigger] self.received()[j as int]).0 == id);
                    }
                }
                j = j + 1;
            }
            let ghost old_out = out@;
            if !seen {
                out.push(id);
                proof {
                    assert(self.idents()[i as int] == id);
                    assert(self.is_participant(id));
                    assert(out@[out@.len() - 1] == id);
                }
            }
            proof {
                assert forall|m: int|
                    0 <= m < i + 1 && !self.has_received(#[trigger] self.idents()[m])
                        implies exists|k: int| 0 <= k < out@.len() && out@[k] == self.idents()[m] by {
                    if m < i {
                        let k = choose|k: int| 0 <= k < old_out.len() && old_out[k] == self.idents()[m];
                        assert(out@[k] == self.idents()[m]);
                    } else if !seen {
                        assert(out@[out@.len() - 1] == self.idents()[m]);
                    }
                }
            }
            i = i + 1;
        }
        out
    }

    /// Whether the given signer's response has been collected.
    pub fn has_received_share(&self, identifier: u64) -> (r: bool)
        ensures
            r == self.has_received(identifier),
    {
        let mut j: usize = 0;
        while j < self.received_shares.len()
            invariant
                0 <= j <= self.received().len(),
                forall|k: int| 0 <= k < j ==> (#[trigger] self.received()[k]).0 != identifier,
            decreases self.received().len() - j,
        {
            if self.received_shares[j].0 == identifier {
                proof {
                    assert((#[trigger] self.received()[j as int]).0 == identifier);
                }
                return true;
            }
            j = j + 1;
        }
        false
    }

    /// Accepts one signer's response after checking it against the
    /// verification equation; a duplicate, an unknown signer, or a share
    /// failing the equation is refused.
    pub fn insert_signature_share(&mut self, identifier: u64, signature_share: k256::Scalar) -> (r:
        Result<(), FrostError>)
        requires
            old(self).well_formed(),
        ensures
            final(self).well_formed(),
            r == Result::<(), FrostError>::Err(FrostError::DuplicatedSignatureShare) <==> old(
                self,
            ).has_received(identifier),
            r is Ok <==> !old(self).has_received(identifier) && old(self).is_participant(
                identifier,
            ) && old(self).share_verifies(identifier, scalar_val(signature_share)),
            !old(self).has_received(identifier) ==> (r == Result::<(), FrostError>::Err(
                FrostError::UnknownSigner,
            ) <==> !(old(self).has_share_entry(identifier) && old(self).has_commit_entry(
                identifier,
            ))),
            !old(self).has_received(identifier) ==> (r == Result::<(), FrostError>::Err(
                FrostError::InvalidSignatureShare,
            ) <==> old(self).has_share_entry(identifier) && old(self).has_commit_entry(identifier)
                && !old(self).share_verifies(identifier, scalar_val(signature_share))),
            r is Ok ==> final(self).received() == old(self).received().push(
                (identifier, signature_share),
            ),
            r is Err ==> *final(self) == *old(self),
            final(self).idents() == old(self).idents(),
            final(self).commitments_model() == old(self).commitments_model(),
            final(self).message_spec() == old(self).message_spec(),
            final(self).vk_log() == old(self).vk_log(),
            final(self).challenge_val() == old(self).challenge_val(),
            final(self).gc_log() == old(self).gc_log(),
            final(self).shares_model() == old(self).shares_model(),
            final(self).lagrange() == old(self).lagrange(),
            final(self).nonce_index_spec() == old(self).nonce_index_spec(),
    {
        let mut j: usize = 0;
        while j < self.received_shares.len()
            invariant
                0 <= j <= self.received().len(),
                *self == *old(self),
                old(self).well_formed(),
                forall|k: int| 0 <= k < j ==> (#[trigger] self.received()[k]).0 != identifier,
            decreases self.received().len() - j,
        {
            if self.received_shares[j].0 == identifier {
                proof {
                    assert((#[trigger] self.received()[j as int]).0 == identifier);
                }
                return Err(FrostError::DuplicatedSignatureShare);
            }
            j = j + 1;
        }

        match self.verify_signature_share(identifier, &signature_share) {
            Ok(_) => {},
            Err(e) => {
                return Err(e);
            },
        }

        let ghost old_received = self.received_shares@;
        self.received_shares.push((identifier, signature_share));
        proof {
            let n = old_received.len() as int;
            assert(self.received_shares@[n].0 == identifier);
            assert(old(self).is_participant(identifier));
            let w = choose|w: int|
                0 <= w < old(self).idents().len() && (#[trigger] old(self).idents()[w])
                    == identifier;
            assert((#[trigger] self.idents()[w]) == identifier);
            assert(self.is_participant(identifier));
            assert forall|a: int, b: int|
                0 <= a < b < self.received_shares@.len() implies self.received_shares@[a].0
                != self.received_shares@[b].0 by {
                if b < n {
                    assert(old(self).received()[a].0 != old(self).received()[b].0);
                } else {
                    assert((#[trigger] old(self).received()[a]).0 != identifier);
                }
            }
            assert forall|i2: int|
                0 <= i2 < self.received_shares@.len() implies self.is_participant(
                    (#[trigger] self.received_shares@[i2]).0,
                ) by {
                if i2 < n {
                    assert(old(self).is_participant((#[trigger] old_received[i2]).0));
                }
            }
            assert forall|i2: int|
                0 <= i2 < self.received_shares@.len() implies self.share_verifies(
                    (#[trigger] self.received_shares@[i2]).0,
                    scalar_val(self.received_shares@[i2].1),
                ) by {
                if i2 < n {
                    assert(old(self).share_verifies(
                        (#[trigger] old_received[i2]).0,
                        scalar_val(old_received[i2].1),
                    ));
                    lemma_share_verifies_bridge(
                        old(self),
                        self,
                        old_received[i2].0,
                        scalar_val(old_received[i2].1),
                    );
                } else {
                    assert(old(self).share_verifies(identifier, scalar_val(signature_share)));
                    lemma_share_verifies_bridge(
                        old(self),
                        self,
                        identifier,
                        scalar_val(signature_share),
                    );
                }
            }
            assert(self.received() =~= old(self).received().push((identifier, signature_share)));
        }
        Ok(())
    }

    /// The verification equation for one share: the signer must be a
    /// participant with a bound commitment and a verifying share, and the
    /// response must satisfy `z * G == R_i + c * Y_i`.
    fn verify_signature_share(&self, identifier: u64, signature_share: &k256::Scalar) -> (r:
        Result<(), FrostError>)
        requires
            self.well_formed(),
        ensures
            r is Ok <==> self.is_participant(identifier) && self.share_verifies(
                identifier,
                scalar_val(*signature_share),
            ),
            r == Result::<(), FrostError>::Err(FrostError::UnknownSigner) <==> !(
            self.has_share_entry(identifier) && self.has_commit_entry(identifier)),
            r == Result::<(), FrostError>::Err(FrostError::InvalidSignatureShare)
                <==> self.has_share_entry(identifier) && self.has_commit_entry(identifier)
                && !self.share_verifies(identifier, scalar_val(*signature_share)),
            r is Err ==> r == Result::<(), FrostError>::Err(FrostError::UnknownSigner) || r
                == Result::<(), FrostError>::Err(FrostError::InvalidSignatureShare),
    {
        // the signer's verifying share
        let mut share_idx: Option<usize> = None;
        let mut j: usize = 0;
        while j < self.verifying_shares.len()
            invariant
                0 <= j <= self.verifying_shares@.len(),
                share_idx is None ==> forall|k: int|
                    0 <= k < j ==> (#[trigger] self.verifying_shares@[k]).0 != identifier,
                share_idx is Some ==> share_idx->0 < self.verifying_shares@.len()
                    && self.verifying_shares@[share_idx->0 as int].0 == identifier,
            decreases self.verifying_shares@.len() - j,
        {
            if self.verifying_shares[j].0 == identifier {
                share_idx = Some(j);
                j = self.verifying_shares.len();
            } else {
                j = j + 1;
            }
        }

        // the signer's participation comes with a verifying share
        let s_idx = match share_idx {
            Some(s) => s,
            None => {
                proof {
                    if self.is_participant(identifier) {
                        let i = choose|i: int|
                            0 <= i < self.idents().len() && (#[trigger] self.idents()[i])
                                == identifier;
                        assert((#[trigger] self.verifying_shares@[i]).0 != identifier);
                    }
                    if self.has_share_entry(identifier) {
                        let j2 = choose|j2: int|
                            0 <= j2 < self.shares_model().len() && (
                            #[trigger] self.shares_model()[j2]).0 == identifier;
                        assert((#[trigger] self.verifying_shares@[j2]).0 == identifier);
                    }
                }
                return Err(FrostError::UnknownSigner);
            },
        };
        proof {
            assert((#[trigger] self.shares_model()[s_idx as int]).0 == identifier);
            assert(self.has_share_entry(identifier));
        }

        // the signer's commitment and binding factor
        let mut commit_idx: Option<usize> = None;
        let mut j: usize = 0;
        while j < self.signing_commitments.len()
            invariant
                0 <= j <= self.signing_commitments@.len(),
                commit_idx is None ==> forall|k: int|
                    0 <= k < j ==> (#[trigger] self.signing_commitments@[k]).0 != identifier,
                commit_idx is Some ==> commit_idx->0 < self.signing_commitments@.len()
                    && self.signing_commitments@[commit_idx->0 as int].0 == identifier,
            decreases self.signing_commitments@.len() - j,
        {
            if self.signing_commitments[j].0 == identifier {
                commit_idx = Some(j);
                j = self.signing_commitments.len();
            } else {
                j = j + 1;
            }
        }
        let c_idx = match commit_idx {
            Some(c) => c,
            None => {
                proof {
                    assert forall|i: int, j2: int|
                        !(0 <= i < self.commitments_model().len()
                            && (#[trigger] self.commitments_model()[i]).0 == identifier as nat
                            && 0 <= j2 < self.shares_model().len()
                            && (#[trigger] self.shares_model()[j2]).0 == identifier
                            && scalar_val(*signature_share) == fadd(
                            fadd(
                                self.commitments_model()[i].1,
                                fmul(
                                    binding_factor_of(
                                        self.commitments_model(),
                                        self.message_spec(),
                                        self.vk_log(),
                                        identifier as nat,
                                    ),
                                    self.commitments_model()[i].2,
                                ),
                            ),
                            fmul(self.challenge_val(), self.shares_model()[j2].1),
                        )) by {
                        if 0 <= i < self.commitments_model().len()
                            && self.commitments_model()[i].0 == identifier as nat {
                            assert((#[trigger] self.signing_commitments@[i]).0 == identifier);
                        }
                    }
                    if self.has_commit_entry(identifier) {
                        let i2 = choose|i2: int|
                            0 <= i2 < self.commitments_model().len() && (
                            #[trigger] self.commitments_model()[i2]).0 == identifier as nat;
                        assert((#[trigger] self.signing_commitments@[i2]).0 == identifier);
                    }
                }
                return Err(FrostError::UnknownSigner);
            },
        };
        proof {
            assert((#[trigger] self.commitments_model()[c_idx as int]).0 == identifier as nat);
            assert(self.has_commit_entry(identifier));
        }

        // R_i = hiding + rho_i * binding
        let bound = el_mul(&self.signing_commitments[c_idx].2, &self.binding_factor_list[c_idx].1);
        let r_i = el_add(&self.signing_commitments[c_idx].1, &bound);
        // c * Y_i
        let challenged = el_mul(&self.verifying_shares[s_idx].1, &self.challenge);
        let expected = el_add(&r_i, &challenged);
        let actual = el_mul_base(signature_share);

        if el_eq(&actual, &expected) {
            proof {
                assert((#[trigger] self.commitments_model()[c_idx as int]).0 == identifier as nat);
                assert((#[trigger] self.shares_model()[s_idx as int]).0 == identifier);
                assert(self.share_verifies(identifier, scalar_val(*signature_share)));
                assert((#[trigger] self.idents()[s_idx as int]) == identifier);
            }
            Ok(())
        } else {
            proof {
                assert forall|i: int, j2: int|
                    !(0 <= i < self.commitments_model().len()
                        && (#[trigger] self.commitments_model()[i]).0 == identifier as nat
                        && 0 <= j2 < self.shares_model().len()
                        && (#[trigger] self.shares_model()[j2]).0 == identifier
                        && scalar_val(*signature_share) == fadd(
                        fadd(
                            self.commitments_model()[i].1,
                            fmul(
                                binding_factor_of(
                                    self.commitments_model(),
                                    self.message_spec(),
                                    self.vk_log(),
                                    identifier as nat,
                                ),
                                self.commitments_model()[i].2,
                            ),
                        ),
                        fmul(self.challenge_val(), self.shares_model()[j2].1),
                    )) by {
                    if 0 <= i < self.commitments_model().len()
                        && self.commitments_model()[i].0 == identifier as nat && 0 <= j2
                        < self.shares_model().len() && self.shares_model()[j2].0 == identifier {
                        assert((#[trigger] self.signing_commitments@[i]).0 == identifier);
                        assert((#[trigger] self.verifying_shares@[j2]).0 == identifier);
                        assert(i == c_idx as int);
                        assert(j2 == s_idx as int);
                    }
                }
            }
            Err(FrostError::InvalidSignatureShare)
        }
    }

    /// A participant's response: its aggregated signing share is the
    /// Lagrange-weighted sum of its raw shares, and the response is
    /// `d + e * rho + s * c` over its pre-committed nonce pair (the outer
    /// Lagrange coefficient is one for aggregated shares).
    pub fn sign(
        &self,
        node_id: NodeID,
        signing_shares: &Vec<k256::Scalar>,
        all_nonces: &Vec<(k256::Scalar, k256::Scalar)>,
    ) -> (r: Option<k256::Scalar>)
        requires
            self.well_formed(),
            self.nonce_index_spec() < all_nonces@.len(),
        ensures
            r is Some <==> self.has_coefficients(node_id) && self.has_commit_entry(
                node_id.0 as u64,
            ),
            r is Some ==> exists|i: int|
                {
                    &&& 0 <= i < self.lagrange().len()
                    &&& (#[trigger] self.lagrange()[i]).0 == node_id
                    &&& self.lagrange()[i].1@.len() > 0
                    &&& scalar_val(r->0) == fadd(
                        fadd(
                            scalar_val(all_nonces@[self.nonce_index_spec()].0),
                            fmul(
                                binding_factor_of(
                                    self.commitments_model(),
                                    self.message_spec(),
                                    self.vk_log(),
                                    node_id.0 as nat,
                                ),
                                scalar_val(all_nonces@[self.nonce_index_spec()].1),
                            ),
                        ),
                        fmul(
                            dot_sum(
                                self.lagrange()[i].1@,
                                signing_shares@,
                            ),
                            self.challenge_val(),
                        ),
                    )
                },
    {
        let mut coeff_idx: Option<usize> = None;
        let mut i: usize = 0;
        while i < self.lagrange_coefficients.len()
            invariant
                0 <= i <= self.lagrange_coefficients@.len(),
                self.well_formed(),
                coeff_idx is None ==> forall|k: int|
                    0 <= k < i ==> (#[trigger] self.lagrange_coefficients@[k]).0 != node_id,
                coeff_idx is Some ==> coeff_idx->0 < self.lagrange_coefficients@.len()
                    && self.lagrange_coefficients@[coeff_idx->0 as int].0 == node_id,
            decreases self.lagrange_coefficients@.len() - i,
        {
            if self.lagrange_coefficients[i].0.0 == node_id.0 {
                coeff_idx = Some(i);
                proof {
                    assert(self.lagrange_coefficients@[i as int].0 == node_id);
                }
                i = self.lagrange_coefficients.len();
            } else {
                i = i + 1;
            }
        }
        let ci = match coeff_idx {
            Some(c) => c,
            None => {
                proof {
                    if self.has_coefficients(node_id) {
                        let w = choose|w: int|
                            0 <= w < self.lagrange().len() && (#[trigger] self.lagrange()[w]).0
                                == node_id && self.lagrange()[w].1@.len() > 0;
                        assert((#[trigger] self.lagrange_coefficients@[w]).0 == node_id);
                    }
                }
                return None;
            },
        };
        if self.lagrange_coefficients[ci].1.len() == 0 {
            proof {
                if self.has_coefficients(node_id) {
                    let w = choose|w: int|
                        0 <= w < self.lagrange().len() && (#[trigger] self.lagrange()[w]).0
                            == node_id && self.lagrange()[w].1@.len() > 0;
                    if w != ci as int {
                        assert(self.lagrange_coefficients@[w].0
                            != self.lagrange_coefficients@[ci as int].0);
                    }
                }
            }
            return None;
        }
        proof {
            assert((#[trigger] self.lagrange()[ci as int]).0 == node_id);
            assert(self.has_coefficients(node_id));
        }

        // s = sum of lambda_j * share_j
        let coeffs = &self.lagrange_coefficients[ci].1;
        let ghost cvals = coeffs@;
        let mut s_agg = scalar_zero();
        let mut j: usize = 0;
        proof {
            assert(dot_sum(cvals.take(0), signing_shares@) == 0);
        }
        while j < coeffs.len()
            invariant
                0 <= j <= cvals.len(),
                cvals == coeffs@,
                ci < self.lagrange_coefficients@.len(),
                cvals == self.lagrange_coefficients@[ci as int].1@,
                scalar_val(s_agg) == dot_sum(cvals.take(j as int), signing_shares@),
            decreases cvals.len() - j,
        {
            proof {
                assert(cvals.take(j + 1).drop_last() =~= cvals.take(j as int));
                assert(cvals.take(j + 1).last() == cvals[j as int]);
            }
            if j < signing_shares.len() {
                let term = scalar_mul(&coeffs[j], &signing_shares[j]);
                s_agg = scalar_add(&s_agg, &term);
            }
            j = j + 1;
        }
        proof {
            assert(cvals.take(cvals.len() as int) =~= cvals);
        }

        // the signer's binding factor, looked up under its own identifier
        let node_ident = node_id.0 as u64;
        let mut rho: Option<k256::Scalar> = None;
        let mut k: usize = 0;
        while k < self.binding_factor_list.len()
            invariant
                0 <= k <= self.binding_factor_list@.len(),
                self.well_formed(),
                node_ident == node_id.0 as u64,
                rho is None ==> forall|t: int|
                    0 <= t < k ==> (#[trigger] self.binding_factor_list@[t]).0 != node_ident,
                rho is Some ==> scalar_val(rho->0) == binding_factor_of(
                    self.commitments_model(),
                    self.message_spec(),
                    self.vk_log(),
                    node_ident as nat,
                ) && self.has_commit_entry(node_ident),
            decreases self.binding_factor_list@.len() - k,
        {
            if self.binding_factor_list[k].0 == node_ident {
                proof {
                    assert((#[trigger] self.binding_factor_list@[k as int]).0
                        == self.signing_commitments@[k as int].0);
                    assert((#[trigger] self.commitments_model()[k as int]).0
                        == node_ident as nat);
                    assert(self.has_commit_entry(node_ident));
                }
                rho = Some(scalar_clone(&self.binding_factor_list[k].1));
                k = self.binding_factor_list.len();
            } else {
                k = k + 1;
            }
        }
        let rho = match rho {
            Some(x) => x,
            None => {
                proof {
                    if self.has_commit_entry(node_ident) {
                        let w = choose|w: int|
                            0 <= w < self.commitments_model().len() && (
                            #[trigger] self.commitments_model()[w]).0 == node_ident as nat;
                        assert((#[trigger] self.signing_commitments@[w]).0 == node_ident);
                        assert((#[trigger] self.binding_factor_list@[w]).0 == node_ident);
                    }
                }
                return None;
            },
        };

        let d = &all_nonces[self.nonce_index].0;
        let e = &all_nonces[self.nonce_index].1;
        let bound = scalar_mul(&rho, e);
        let commit_part = scalar_add(d, &bound);
        let challenged = scalar_mul(&s_agg, &self.challenge);
        let z = scalar_add(&commit_part, &challenged);
        proof {
            assert((#[trigger] self.lagrange()[ci as int]).0 == node_id);
            assert(self.lagrange()[ci as int].1@.len() > 0);
            assert(scalar_val(z) == fadd(
                fadd(
                    scalar_val(all_nonces@[self.nonce_index_spec()].0),
                    fmul(
                        binding_factor_of(
                            self.commitments_model(),
                            self.message_spec(),
                            self.vk_log(),
                            node_id.0 as nat,
                        ),
                        scalar_val(all_nonces@[self.nonce_index_spec()].1),
                    ),
                ),
                fmul(dot_sum(self.lagrange()[ci as int].1@, signing_shares@), self.challenge_val()),
            ));
        }
        Some(z)
    }

    /// Aggregates once every participant's verified response is in: the
    /// signature is the group commitment with the sum of the responses.
    pub fn try_aggregate_signature_share(&self) -> (r: Option<Signature>)
        requires
            self.well_formed(),
        ensures
            r is Some <==> self.received().len() == self.idents().len(),
            r is Some ==> point_log(r->0.big_r) == self.gc_log() && scalar_val(r->0.z)
                == share_sum(self.received()),
            r is Some ==> forall|k: int|
                0 <= k < self.received().len() ==> self.share_verifies(
                    (#[trigger] self.received()[k]).0,
                    scalar_val(self.received()[k].1),
                ),
    {
        if self.received_shares.len() != self.all_identifiers.len() {
            return None;
        }
        let mut z = scalar_zero();
        let mut i: usize = 0;
        proof {
            assert(self.received().take(0) =~= Seq::<(u64, k256::Scalar)>::empty());
        }
        while i < self.received_shares.len()
            invariant
                0 <= i <= self.received().len(),
                scalar_val(z) == share_sum(self.received().take(i as int)),
            decreases self.received().len() - i,
        {
            z = scalar_add(&z, &self.received_shares[i].1);
            proof {
                assert(self.received().take(i + 1).drop_last() =~= self.received().take(i as int));
                assert(self.received().take(i + 1).last() == self.received()[i as int]);
            }
            i = i + 1;
        }
        proof {
            assert(self.received().take(self.received().len() as int) =~= self.received());
        }
        Some(Signature { big_r: el_clone(&self.group_commitment), z })
    }
}

/// The verification equation is a function of the task's public data
/// alone: two task states with the same commitments, message, key and
/// challenge agree on it.
proof fn lemma_share_verifies_bridge(a: &FrostSignTask, b: &FrostSignTask, id: u64, z: nat)
    requires
        a.commitments_model() == b.commitments_model(),
        a.shares_model() == b.shares_model(),
        a.message_spec() == b.message_spec(),
        a.vk_log() == b.vk_log(),
        a.challenge_val() == b.challenge_val(),
        a.share_verifies(id, z),
    ensures
        b.share_verifies(id, z),
{
    let (i, j) = choose|i: int, j: int|
        {
            &&& 0 <= i < a.commitments_model().len()
            &&& (#[trigger] a.commitments_model()[i]).0 == id as nat
            &&& 0 <= j < a.shares_model().len()
            &&& (#[trigger] a.shares_model()[j]).0 == id
            &&& z == fadd(
                fadd(
                    a.commitments_model()[i].1,
                    fmul(
                        binding_factor_of(
                            a.commitments_model(),
                            a.message_spec(),
                            a.vk_log(),
                            id as nat,
                        ),
                        a.commitments_model()[i].2,
                    ),
                ),
                fmul(a.challenge_val(), a.shares_model()[j].1),
            )
        };
    assert((#[trigger] b.commitments_model()[i]).0 == id as nat);
    assert((#[trigger] b.shares_model()[j]).0 == id);
}

/// The Lagrange-weighted sum of the shares: coefficients beyond the
/// shorter list are dropped.
pub open spec fn dot_sum(coeffs: Seq<k256::Scalar>, shares: Seq<k256::Scalar>) -> nat
    decreases coeffs.len(),
{
    if coeffs.len() == 0 {
        0
    } else {
        let rest = dot_sum(coeffs.drop_last(), shares);
        let j = coeffs.len() - 1;
        if j < shares.len() {
            fadd(rest, fmul(scalar_val(coeffs.last()), scalar_val(shares[j])))
        } else {
            rest
        }
    }
}

/// Schnorr verification: the signature is accepted exactly when
/// `z * G == R + c * Y`, with the challenge derived from the group
/// commitment, the verifying key, and the message.
pub fn verify_signature(
    verifying_key: &k256::ProjectivePoint,
    message: &Vec<u8>,
    signature: &Signature,
) -> (r: bool)
    ensures
        r <==> scalar_val(signature.z) == fadd(
            point_log(signature.big_r),
            fmul(
                challenge_of(
                    point_log(signature.big_r),
                    point_log(*verifying_key),
                    message@,
                ),
                point_log(*verifying_key),
            ),
        ),
{
    let c = compute_challenge(&signature.big_r, verifying_key, message);
    let challenged = el_mul(verifying_key, &c);
    let expected = el_add(&signature.big_r, &challenged);
    let actual = el_mul_base(&signature.z);
    el_eq(&actual, &expected)
}

} // verus!
