//! The hash derivations of the FROST signing protocol: per-signer
//! binding factors and the Schnorr challenge.
//!
//! The ciphersuite's hash functions are taken on trust; the preimages —
//! the verifying key's encoding, the hashed message, the encoded
//! commitment list, the domain tag and the signer's identifier — are
//! assembled by verified code, byte for byte as the protocol prescribes.

use vstd::prelude::*;
use crate::curve::{
    el_bytes, group_order, point_enc, point_log, scalar_bytes, scalar_enc, scalar_val,
};

verus! {

/// The ciphersuite's binding-factor hash, reduced to a scalar.
pub uninterp spec fn h1_of(m: Seq<u8>) -> nat;

/// The ciphersuite's challenge hash, reduced to a scalar.
pub uninterp spec fn h2_of(m: Seq<u8>) -> nat;

/// The ciphersuite's message pre-hash.
pub uninterp spec fn h4_of(m: Seq<u8>) -> Seq<u8>;

/// The ciphersuite's commitment-list pre-hash.
pub uninterp spec fn h5_of(m: Seq<u8>) -> Seq<u8>;

/// Relies on `frost_core::Ciphersuite::H1` of the secp256k1/SHA-256
/// suite: a hash-to-scalar, a function of the input bytes alone.
#[verifier::external_body]
fn frost_h1(m: &Vec<u8>) -> (r: k256::Scalar)
    ensures
        scalar_val(r) == h1_of(m@),
        scalar_val(r) < group_order(),
{
    <frost_secp256k1::Secp256K1Sha256 as frost_core::Ciphersuite>::H1(m.as_slice())
}

/// Relies on `frost_core::Ciphersuite::H2` of the secp256k1/SHA-256
/// suite: the Schnorr challenge hash, a function of the input alone.
#[verifier::external_body]
fn frost_h2(m: &Vec<u8>) -> (r: k256::Scalar)
    ensures
        scalar_val(r) == h2_of(m@),
        scalar_val(r) < group_order(),
{
    <frost_secp256k1::Secp256K1Sha256 as frost_core::Ciphersuite>::H2(m.as_slice())
}

/// Relies on `frost_core::Ciphersuite::H4` of the secp256k1/SHA-256
/// suite: a 32-byte hash, a function of the input alone.
#[verifier::external_body]
fn frost_h4(m: &Vec<u8>) -> (r: Vec<u8>)
    ensures
        r@ == h4_of(m@),
        r@.len() == 32,
{
    <frost_secp256k1::Secp256K1Sha256 as frost_core::Ciphersuite>::H4(m.as_slice()).to_vec()
}

/// Relies on `frost_core::Ciphersuite::H5` of the secp256k1/SHA-256
/// suite: a 32-byte hash, a function of the input alone.
#[verifier::external_body]
fn frost_h5(m: &Vec<u8>) -> (r: Vec<u8>)
    ensures
        r@ == h5_of(m@),
        r@.len() == 32,
{
    <frost_secp256k1::Secp256K1Sha256 as frost_core::Ciphersuite>::H5(m.as_slice()).to_vec()
}

/// The domain tag mixed into every binding factor.
pub open spec fn binding_prefix() -> Seq<u8> {
    seq![
        0x63u8, 0x6fu8, 0x6eu8, 0x66u8, 0x6cu8, 0x75u8, 0x78u8, 0x2du8, 0x70u8, 0x72u8, 0x6fu8,
        0x6du8, 0x69u8, 0x73u8, 0x65u8,
    ]
}

/// One signer's commitments: identifier, hiding and binding nonce
/// commitment, all as numbers.
pub type CommitModel = (nat, nat, nat);

/// The encoded commitment list: per signer, in list order, the
/// identifier's encoding followed by both commitment encodings.
pub open spec fn enc_commit_list(cs: Seq<CommitModel>) -> Seq<u8>
    decreases cs.len(),
{
    if cs.len() == 0 {
        Seq::empty()
    } else {
        enc_commit_list(cs.drop_last()) + scalar_enc(cs.last().0) + point_enc(cs.last().1)
            + point_enc(cs.last().2)
    }
}

/// The binding factor of the signer `id`, for a signing run over the
/// given commitment list, message, and verifying key.
pub open spec fn binding_factor_of(cs: Seq<CommitModel>, msg: Seq<u8>, vk: nat, id: nat) -> nat {
    h1_of(
        point_enc(vk) + h4_of(msg) + h5_of(enc_commit_list(cs)) + binding_prefix() + scalar_enc(
            id,
        ),
    )
}

/// The Schnorr challenge for group commitment `r`, verifying key `vk`,
/// and message `msg`.
pub open spec fn challenge_of(r: nat, vk: nat, msg: Seq<u8>) -> nat {
    h2_of(point_enc(r) + point_enc(vk) + msg)
}

/// The spec-level image of a commitment list.
pub open spec fn commit_model(
    s: Seq<(u64, k256::ProjectivePoint, k256::ProjectivePoint)>,
) -> Seq<CommitModel> {
    s.map_values(
        |c: (u64, k256::ProjectivePoint, k256::ProjectivePoint)|
            (c.0 as nat, point_log(c.1), point_log(c.2)),
    )
}

/// The domain tag as bytes.
fn binding_prefix_bytes() -> (r: Vec<u8>)
    ensures
        r@ == binding_prefix(),
{
    let mut v: Vec<u8> = Vec::new();
    v.push(0x63u8); v.push(0x6fu8); v.push(0x6eu8); v.push(0x66u8); v.push(0x6cu8);
    v.push(0x75u8); v.push(0x78u8); v.push(0x2du8); v.push(0x70u8); v.push(0x72u8);
    v.push(0x6fu8); v.push(0x6du8); v.push(0x69u8); v.push(0x73u8); v.push(0x65u8);
    proof {
        assert(v@ =~= binding_prefix());
    }
    v
}

/// Encodes a commitment list exactly as the protocol hashes it.
fn encode_commit_list(
    commitments: &Vec<(u64, k256::ProjectivePoint, k256::ProjectivePoint)>,
) -> (r: Vec<u8>)
    ensures
        r@ == enc_commit_list(commit_model(commitments@)),
{
    let ghost model = commit_model(commitments@);
    let mut bytes: Vec<u8> = Vec::new();
    let mut i: usize = 0;
    proof {
        assert(enc_commit_list(model.take(0)) =~= Seq::<u8>::empty());
        assert(bytes@ =~= enc_commit_list(model.take(0)));
    }
    while i < commitments.len()
        invariant
            0 <= i <= commitments@.len(),
            model == commit_model(commitments@),
            model.len() == commitments@.len(),
            bytes@ == enc_commit_list(model.take(i as int)),
        decreases commitments@.len() - i,
    {
        let id_s = crate::ids::num_to_identifier_u64(commitments[i].0);
        let mut id_bytes = scalar_bytes(&id_s);
        let mut hide_bytes = el_bytes(&commitments[i].1);
        let mut bind_bytes = el_bytes(&commitments[i].2);
        bytes.append(&mut id_bytes);
        bytes.append(&mut hide_bytes);
        bytes.append(&mut bind_bytes);
        proof {
            assert(model.take(i + 1).drop_last() =~= model.take(i as int));
            assert(model.take(i + 1).last() == model[i as int]);
            assert(bytes@ =~= enc_commit_list(model.take(i + 1)));
        }
        i = i + 1;
    }
    proof {
        assert(model.take(model.len() as int) =~= model);
    }
    bytes
}

/// The binding factors of every signer in the commitment list, in list
/// order: each is the protocol's hash over the verifying key, the
/// message, the whole commitment list, the domain tag, and the signer's
/// identifier.
pub fn compute_binding_factors(
    commitments: &Vec<(u64, k256::ProjectivePoint, k256::ProjectivePoint)>,
    message: &Vec<u8>,
    verifying_key: &k256::ProjectivePoint,
) -> (r: Vec<(u64, k256::Scalar)>)
    ensures
        r@.len() == commitments@.len(),
        forall|i: int|
            0 <= i < r@.len() ==> (#[trigger] r@[i]).0 == commitments@[i].0 && scalar_val(
                r@[i].1,
            ) == binding_factor_of(
                commit_model(commitments@),
                message@,
                point_log(*verifying_key),
                commitments@[i].0 as nat,
            ) && scalar_val(r@[i].1) < group_order(),
{
    let ghost model = commit_model(commitments@);
    let mut prefix = el_bytes(verifying_key);
    let mut msg_hash = frost_h4(message);
    let enc_list = encode_commit_list(commitments);
    let mut list_hash = frost_h5(&enc_list);
    let mut tag = binding_prefix_bytes();
    prefix.append(&mut msg_hash);
    prefix.append(&mut list_hash);
    prefix.append(&mut tag);
    proof {
        assert(prefix@ =~= point_enc(point_log(*verifying_key)) + h4_of(message@) + h5_of(
            enc_commit_list(model),
        ) + binding_prefix());
    }

    let mut out: Vec<(u64, k256::Scalar)> = Vec::new();
    let mut i: usize = 0;
    while i < commitments.len()
        invariant
            0 <= i <= commitments@.len(),
            model == commit_model(commitments@),
            prefix@ == point_enc(point_log(*verifying_key)) + h4_of(message@) + h5_of(
                enc_commit_list(model),
            ) + binding_prefix(),
            out@.len() == i,
            forall|k: int|
                0 <= k < i ==> (#[trigger] out@[k]).0 == commitments@[k].0 && scalar_val(
                    out@[k].1,
                ) == binding_factor_of(
                    model,
                    message@,
                    point_log(*verifying_key),
                    commitments@[k].0 as nat,
                ) && scalar_val(out@[k].1) < group_order(),
        decreases commitments@.len() - i,
    {
        let id = commitments[i].0;
        let id_s = crate::ids::num_to_identifier_u64(id);
        let mut preimage = clone_bytes(&prefix);
        let mut id_bytes = scalar_bytes(&id_s);
        preimage.append(&mut id_bytes);
        let rho = frost_h1(&preimage);
        proof {
            assert(preimage@ =~= point_enc(point_log(*verifying_key)) + h4_of(message@) + h5_of(
                enc_commit_list(model),
            ) + binding_prefix() + scalar_enc(id as nat));
        }
        out.push((id, rho));
        i = i + 1;
    }
    out
}

/// The Schnorr challenge: the challenge hash over the group
/// commitment's encoding, the verifying key's encoding, and the message.
pub fn compute_challenge(
    group_commitment: &k256::ProjectivePoint,
    verifying_key: &k256::ProjectivePoint,
    message: &Vec<u8>,
) -> (r: k256::Scalar)
    ensures
        scalar_val(r) == challenge_of(
            point_log(*group_commitment),
            point_log(*verifying_key),
            message@,
        ),
        scalar_val(r) < group_order(),
{
    let mut preimage = el_bytes(group_commitment);
    let mut vk_bytes = el_bytes(verifying_key);
    let mut msg = clone_bytes(message);
    preimage.append(&mut vk_bytes);
    preimage.append(&mut msg);
    proof {
        assert(preimage@ =~= point_enc(point_log(*group_commitment)) + point_enc(
            point_log(*verifying_key),
        ) + message@);
    }
    frost_h2(&preimage)
}

/// A fresh copy of a byte vector.
pub fn clone_bytes(v: &Vec<u8>) -> (r: Vec<u8>)
    ensures
        r@ == v@,
{
    let mut out: Vec<u8> = Vec::new();
    let mut i: usize = 0;
    while i < v.len()
        invariant
            0 <= i <= v@.len(),
            out@ == v@.take(i as int),
        decreases v@.len() - i,
    {
        out.push(v[i]);
        proof {
            assert(out@ =~= v@.take(i + 1));
        }
        i = i + 1;
    }
    proof {
        assert(v@.take(v@.len() as int) =~= v@);
    }
    out
}

} // verus!
