//! Consensus payloads and their witness checks: each payload carries a
//! digest of its witness, and validation recomputes the digest.

use vstd::prelude::*;
use crate::curve::{
    el_bytes, el_eq, el_identity, keccak256, keccak256_of, point_enc, point_log, scalar_bytes,
    scalar_enc, scalar_val,
};
use crate::poly::{AffinePolynomialCommitment, H256};

verus! {

#[derive(Clone, Copy, Debug, PartialEq, Eq)]
pub enum VssType {
    DistributedKeyGeneration,
    SecretShareRotation,
}

#[derive(Clone, Copy, Debug, PartialEq, Eq)]
pub struct VSSPayloadID {
    pub epoch: u64,
    pub sender: u64,
}

/// Placeholder for the dealing's correctness proof; its shape is not
/// part of this core.
pub struct VSSDummyProof;

#[derive(Clone, Copy, Debug, PartialEq, Eq)]
pub enum VSSPayloadError {
    InconsistentCommitmentHash,
    TooSmallDegree,
    NotZeroHole,
}

pub struct VSSPayload {
    pub type_tag: VssType,
    pub id: VSSPayloadID,
    pub commitment_hash: H256,
    pub commitment: AffinePolynomialCommitment,
    pub proof_data: VSSDummyProof,
}

impl VSSPayload {
    /// The announced digest must match the commitment; the committed
    /// polynomial must reach the protocol's minimum degree; and a
    /// share-rotation dealing must commit to a zero secret.
    pub fn validate_witness(&self) -> (r: Result<(), VSSPayloadError>)
        ensures
            r == Result::<(), VSSPayloadError>::Err(VSSPayloadError::TooSmallDegree)
                <==> self.commitment.logs().len() < 100,
            self.commitment.logs().len() >= 100 ==> (r == Result::<(), VSSPayloadError>::Err(
                VSSPayloadError::InconsistentCommitmentHash,
            ) <==> self.commitment_hash@ != crate::poly::commitment_hash_of(
                self.commitment.logs(),
            )),
            r is Ok <==> self.commitment.logs().len() >= 100 && self.commitment_hash@
                == crate::poly::commitment_hash_of(self.commitment.logs()) && (self.type_tag
                is SecretShareRotation ==> self.commitment.logs()[0] == 0),
    {
        if self.commitment.len() < 100 {
            return Err(VSSPayloadError::TooSmallDegree);
        }

        let recomputed = self.commitment.hash();
        if !self.commitment_hash.eq_hash(&recomputed) {
            return Err(VSSPayloadError::InconsistentCommitmentHash);
        }

        let rotation = match self.type_tag {
            VssType::SecretShareRotation => true,
            VssType::DistributedKeyGeneration => false,
        };
        if rotation {
            let constant = self.commitment.to_projective().constant_term();
            let identity = el_identity();
            if !el_eq(&constant, &identity) {
                return Err(VSSPayloadError::NotZeroHole);
            }
        }
        Ok(())
    }
}

#[derive(Clone, Copy, Debug, PartialEq, Eq)]
pub struct PreCommitPayloadID {
    pub epoch: u64,
    pub sender: u8,
}

#[derive(Clone, Copy, Debug, PartialEq, Eq)]
pub enum PreCommitPayloadError {
    InconsistentCommitmentHash,
    InconsistentLength,
}

pub struct PreCommitPayload {
    pub id: PreCommitPayloadID,
    pub commitment_hash: H256,
    pub commitment_size: u32,
}

pub struct PreCommitWitness {
    pub commitments: Vec<(k256::ProjectivePoint, k256::ProjectivePoint)>,
}

/// The encodings of the nonce pairs, hiding then binding, one pair
/// after the other.
pub open spec fn enc_pairs(cs: Seq<(k256::ProjectivePoint, k256::ProjectivePoint)>) -> Seq<u8>
    decreases cs.len(),
{
    if cs.len() == 0 {
        Seq::empty()
    } else {
        enc_pairs(cs.drop_last()) + point_enc(point_log(cs.last().0)) + point_enc(
            point_log(cs.last().1),
        )
    }
}

/// The digest a pre-commit announces: Keccak-256 over the pairs'
/// canonical encodings.
pub fn precommit_commitment_hash(
    commitments: &Vec<(k256::ProjectivePoint, k256::ProjectivePoint)>,
) -> (r: H256)
    ensures
        r@ == keccak256_of(enc_pairs(commitments@)),
{
    let mut data: Vec<u8> = Vec::new();
    let mut i: usize = 0;
    proof {
        assert(enc_pairs(commitments@.take(0)) =~= Seq::<u8>::empty());
        assert(data@ =~= enc_pairs(commitments@.take(0)));
    }
    while i < commitments.len()
        invariant
            0 <= i <= commitments@.len(),
            data@ == enc_pairs(commitments@.take(i as int)),
        decreases commitments@.len() - i,
    {
        let mut hiding = el_bytes(&commitments[i].0);
        let mut binding = el_bytes(&commitments[i].1);
        data.append(&mut hiding);
        data.append(&mut binding);
        proof {
            assert(commitments@.take(i + 1).drop_last() =~= commitments@.take(i as int));
            assert(commitments@.take(i + 1).last() == commitments@[i as int]);
            assert(data@ =~= enc_pairs(commitments@.take(i + 1)));
        }
        i = i + 1;
    }
    proof {
        assert(commitments@.take(commitments@.len() as int) =~= commitments@);
    }
    H256::from_bytes(keccak256(&data))
}

impl PreCommitPayload {
    /// The witness must carry the announced number of pairs and hash to
    /// the announced digest.
    pub fn validate_witness(&self, witness: &PreCommitWitness) -> (r: Result<
        (),
        PreCommitPayloadError,
    >)
        ensures
            r == Result::<(), PreCommitPayloadError>::Err(
                PreCommitPayloadError::InconsistentLength,
            ) <==> witness.commitments@.len() != self.commitment_size,
            witness.commitments@.len() == self.commitment_size ==> (r is Ok
                <==> self.commitment_hash@ == keccak256_of(enc_pairs(witness.commitments@))),
    {
        if witness.commitments.len() as u64 != self.commitment_size as u64 {
            return Err(PreCommitPayloadError::InconsistentLength);
        }
        let recomputed = precommit_commitment_hash(&witness.commitments);
        if !self.commitment_hash.eq_hash(&recomputed) {
            return Err(PreCommitPayloadError::InconsistentCommitmentHash);
        }
        Ok(())
    }
}

#[derive(Clone, Copy, Debug, PartialEq, Eq)]
pub enum SignaturePayloadError {
    InconsistentSignatureHash,
}

pub struct SignaturePayload {
    pub epoch: u64,
    pub sender: u64,
    pub proposal_index_list: Vec<u32>,
    pub signature_hash: H256,
}

pub struct SignatureWitness {
    pub signature_shards: Vec<k256::Scalar>,
}

/// The encodings of the signature shares, one after the other.
pub open spec fn enc_shards(ss: Seq<k256::Scalar>) -> Seq<u8>
    decreases ss.len(),
{
    if ss.len() == 0 {
        Seq::empty()
    } else {
        enc_shards(ss.drop_last()) + scalar_enc(scalar_val(ss.last()))
    }
}

/// The digest a signature payload announces: Keccak-256 over the
/// shards' canonical encodings.
pub fn signature_hash(signature_shards: &Vec<k256::Scalar>) -> (r: H256)
    ensures
        r@ == keccak256_of(enc_shards(signature_shards@)),
{
    let mut data: Vec<u8> = Vec::new();
    let mut i: usize = 0;
    proof {
        assert(enc_shards(signature_shards@.take(0)) =~= Seq::<u8>::empty());
        assert(data@ =~= enc_shards(signature_shards@.take(0)));
    }
    while i < signature_shards.len()
        invariant
            0 <= i <= signature_shards@.len(),
            data@ == enc_shards(signature_shards@.take(i as int)),
        decreases signature_shards@.len() - i,
    {
        let mut shard = scalar_bytes(&signature_shards[i]);
        data.append(&mut shard);
        proof {
            assert(signature_shards@.take(i + 1).drop_last() =~= signature_shards@.take(i as int));
            assert(signature_shards@.take(i + 1).last() == signature_shards@[i as int]);
            assert(data@ =~= enc_shards(signature_shards@.take(i + 1)));
        }
        i = i + 1;
    }
    proof {
        assert(signature_shards@.take(signature_shards@.len() as int) =~= signature_shards@);
    }
    H256::from_bytes(keccak256(&data))
}

impl SignaturePayload {
    /// The witness must hash to the announced digest.
    pub fn validate_witness(&self, witness: &SignatureWitness) -> (r: Result<
        (),
        SignaturePayloadError,
    >)
        ensures
            r is Ok <==> self.signature_hash@ == keccak256_of(enc_shards(
                witness.signature_shards@,
            )),
            r is Err ==> r == Result::<(), SignaturePayloadError>::Err(
                SignaturePayloadError::InconsistentSignatureHash,
            ),
    {
        let recomputed = signature_hash(&witness.signature_shards);
        if !self.signature_hash.eq_hash(&recomputed) {
            return Err(SignaturePayloadError::InconsistentSignatureHash);
        }
        Ok(())
    }
}

} // verus!
