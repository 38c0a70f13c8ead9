//! Unit checks: the commitment digest formula, aggregation arithmetic,
//! idempotence, validation errors, matrix interpolation, handoff
//! recovery, dealer messages, and payload witnesses.

use promise_core::curve::{el_bytes, el_mul_base, scalar_add, scalar_bytes, scalar_from_u64};
use promise_core::dkg::{DkgError, ShareAggregator};
use promise_core::dkg_state::DkgState;
use promise_core::ids::{num_to_identifier, NodeID, VoteGroup, VoteID};
use promise_core::matrix::Matrix;
use promise_core::payloads::{
    signature_hash, PreCommitPayload, PreCommitPayloadError, PreCommitPayloadID,
};
use promise_core::poly::{
    generate_polynomial_commitments, validate_verifiable_secret_share, AffinePolynomialCommitment,
    PolynomialCommitment,
};
use promise_core::share_sender::ShareSender;
use promise_core::share_manager::HandoffManager;
use tiny_keccak::Hasher;

#[test]
fn commitment_hash_is_keccak_over_tag_and_points() {
    // an empty commitment hashes exactly the domain tag
    let empty = AffinePolynomialCommitment::new(Vec::new());
    let got = empty.hash();

    let mut hasher = tiny_keccak::Keccak::v256();
    hasher.update(b"cfx-promise-polynomial-commitment-secp256k1");
    let mut expected = [0u8; 32];
    hasher.finalize(&mut expected);

    assert_eq!(got.as_bytes().as_slice(), &expected);
}

#[test]
fn aggregation_sums_dealings() {
    // two dealers with fixed secrets: the joint secret is their sum
    let vote_ids: Vec<VoteID> = (1..=3usize).map(VoteID::new).collect();
    let a = scalar_from_u64(11);
    let b = scalar_from_u64(31);
    let (pc_a, shares_a) = generate_polynomial_commitments(1, &vote_ids, Some(&a));
    let (pc_b, shares_b) = generate_polynomial_commitments(1, &vote_ids, Some(&b));

    let mut agg = ShareAggregator::new(vote_ids.clone());
    for (pc, shares) in [(pc_a, shares_a), (pc_b, shares_b)] {
        let affine = pc.to_affine();
        let hash = affine.hash();
        let scalars: Vec<k256::Scalar> = shares.iter().map(|s| s.1).collect();
        agg.receive_secret_share(affine, scalars).unwrap();
        agg.accept_polynomial_commitment(hash).unwrap();
    }
    let joint = agg.finalize();
    let sum = scalar_add(&a, &b);
    assert_eq!(
        el_bytes(&joint.commitment.constant_term()),
        el_bytes(&el_mul_base(&sum))
    );
    // the joint shares still lie on the joint commitment
    assert!(validate_verifiable_secret_share(
        &joint.commitment,
        &joint.shares
    ));
}

#[test]
fn accepting_a_dealing_twice_counts_once() {
    let vote_ids: Vec<VoteID> = (1..=3usize).map(VoteID::new).collect();
    let secret = scalar_from_u64(7);
    let (pc, shares) = generate_polynomial_commitments(1, &vote_ids, Some(&secret));
    let affine = pc.to_affine();
    let hash1 = affine.hash();
    let hash2 = affine.hash();
    let scalars: Vec<k256::Scalar> = shares.iter().map(|s| s.1).collect();

    let mut agg = ShareAggregator::new(vote_ids);
    agg.receive_secret_share(affine, scalars).unwrap();
    agg.accept_polynomial_commitment(hash1).unwrap();
    agg.accept_polynomial_commitment(hash2).unwrap();
    let joint = agg.finalize();
    assert_eq!(
        el_bytes(&joint.commitment.constant_term()),
        el_bytes(&el_mul_base(&secret))
    );
}

#[test]
fn dkg_state_deduplicates_by_hash() {
    let vote_ids: Vec<VoteID> = (1..=3usize).map(VoteID::new).collect();
    let (pc, _) = generate_polynomial_commitments(1, &vote_ids, None);
    let mut state = DkgState::new();
    state.receive_new_commitment(3, pc.to_affine());
    state.receive_new_commitment(3, pc.to_affine());
    assert!(state.has_enough_votes(3));
    assert!(!state.has_enough_votes(4));
}

#[test]
fn tampered_or_misshapen_dealings_are_refused() {
    let vote_ids: Vec<VoteID> = (1..=3usize).map(VoteID::new).collect();
    let (pc, shares) = generate_polynomial_commitments(1, &vote_ids, None);
    let mut scalars: Vec<k256::Scalar> = shares.iter().map(|s| s.1).collect();

    // too few shares
    let mut agg = ShareAggregator::new(vote_ids.clone());
    assert_eq!(
        agg.receive_secret_share(pc.to_affine(), scalars[..2].to_vec()),
        Err(DkgError::IncorrectLength)
    );

    // a tampered share
    scalars[1] = scalar_add(&scalars[1], &scalar_from_u64(1));
    assert_eq!(
        agg.receive_secret_share(pc.to_affine(), scalars),
        Err(DkgError::InconsistentSecretShare)
    );

    // accepting an unknown digest
    let (other, _) = generate_polynomial_commitments(1, &vote_ids, None);
    let unknown = other.to_affine().hash();
    assert_eq!(
        agg.accept_polynomial_commitment(unknown),
        Err(DkgError::UnknownCommitment)
    );
}

#[test]
fn interpolated_column_matches_the_polynomial() {
    // fill three rows of a column with a quadratic's evaluations; the
    // interpolation recovers the remaining rows of that polynomial
    let vote_ids: Vec<VoteID> = (1..=3usize).map(VoteID::new).collect();
    let (pc, _) = generate_polynomial_commitments(2, &vote_ids, None);

    let mut col = Vec::new();
    for row in 0..5usize {
        if (1..=3).contains(&row) {
            let x = num_to_identifier(row);
            col.push(pc.evaluate(&x));
        } else {
            // junk that interpolation must overwrite
            col.push(el_mul_base(&scalar_from_u64(99)));
        }
    }
    let mut m = Matrix::new(5, 1);
    m.set_col(0, &col);
    m.interpolate_col(0, &vec![1, 2, 3]);

    for row in [0usize, 4] {
        let x = num_to_identifier(row);
        assert_eq!(el_bytes(&m.cell(0, row)), el_bytes(&pc.evaluate(&x)));
    }
}

#[test]
fn handoff_checks_and_recovers_shares() {
    // the previous holder of vote one deals row shares to the receiver,
    // who holds votes three and four
    let votes: Vec<VoteID> = vec![VoteID::new(3), VoteID::new(4)];
    let eval_points: Vec<VoteID> = vec![VoteID::new(3), VoteID::new(4)];
    let (g, g_shares) = generate_polynomial_commitments(1, &eval_points, None);

    // the matrix column of sender one holds g's public points
    let mut m = Matrix::new(5, 2);
    let mut col = Vec::new();
    for row in 0..5usize {
        let x = num_to_identifier(row);
        col.push(g.evaluate(&x));
    }
    m.set_col(1, &col);

    let mut handoff = HandoffManager::new(votes.clone(), 1);
    let shares: Vec<k256::Scalar> = g_shares.iter().map(|s| s.1).collect();

    // a wrong share is caught
    let mut bad = shares.clone();
    bad[0] = scalar_add(&bad[0], &scalar_from_u64(1));
    assert!(handoff.receive_share(&m, VoteID::new(1), bad).is_err());

    // the right row is accepted and reaches the threshold
    assert!(handoff.receive_share(&m, VoteID::new(1), shares.clone()).unwrap());

    // one known row interpolates to a constant: the row's own share
    let recovered = handoff.construct_col_share();
    assert_eq!(recovered.len(), 2);
    for (k, (vote, value)) in recovered.iter().enumerate() {
        assert_eq!(vote.0, votes[k].0);
        assert_eq!(scalar_bytes(value), scalar_bytes(&shares[k]));
    }
}

#[test]
fn dealer_messages_carry_shares_on_the_commitment() {
    let groups = VoteGroup::new(vec![
        (NodeID(1), vec![VoteID::new(1), VoteID::new(2)]),
        (NodeID(2), vec![VoteID::new(3)]),
    ]);
    let sender = ShareSender::generate(1, groups, Some(&scalar_from_u64(5)));
    let messages = sender.make_share_messages();
    assert_eq!(messages.len(), 2);

    let mut votes_per_node: Vec<Vec<usize>> = vec![vec![1, 2], vec![3]];
    for (k, (node, message)) in messages.into_iter().enumerate() {
        assert_eq!(node.0 as usize, k + 1);
        let pc: PolynomialCommitment = message.commitment.to_projective();
        let pairs: Vec<(VoteID, k256::Scalar)> = votes_per_node
            .remove(0)
            .into_iter()
            .zip(message.shares.into_iter())
            .map(|(v, s)| (VoteID::new(v), s))
            .collect();
        assert!(validate_verifiable_secret_share(&pc, &pairs));
    }
}

#[test]
fn dealer_tallies_acknowledgements() {
    let groups = VoteGroup::new(vec![
        (NodeID(1), vec![VoteID::new(1), VoteID::new(2)]),
        (NodeID(2), vec![VoteID::new(3)]),
    ]);
    let mut sender = ShareSender::generate(1, groups, None);
    assert_eq!(sender.total_ack_votes(), 0);
    sender.receive_share_ack(NodeID(1), ());
    sender.receive_share_ack(NodeID(1), ());
    assert_eq!(sender.total_ack_votes(), 2);
    sender.receive_share_ack(NodeID(7), ());
    assert_eq!(sender.total_ack_votes(), 2);
    sender.receive_share_ack(NodeID(2), ());
    assert_eq!(sender.total_ack_votes(), 3);
}

#[test]
fn precommit_witness_must_match_its_announcement() {
    let pair = (
        el_mul_base(&scalar_from_u64(3)),
        el_mul_base(&scalar_from_u64(4)),
    );
    let commitments = vec![pair];
    let digest = promise_core::payloads::precommit_commitment_hash(&commitments);
    let payload = PreCommitPayload {
        id: PreCommitPayloadID { epoch: 0, sender: 1 },
        commitment_hash: digest,
        commitment_size: 2,
    };
    let witness = promise_core::payloads::PreCommitWitness { commitments };
    assert_eq!(
        payload.validate_witness(&witness),
        Err(PreCommitPayloadError::InconsistentLength)
    );

    let digest2 = promise_core::payloads::precommit_commitment_hash(&witness.commitments);
    let payload2 = PreCommitPayload {
        id: PreCommitPayloadID { epoch: 0, sender: 1 },
        commitment_hash: digest2,
        commitment_size: 1,
    };
    assert!(payload2.validate_witness(&witness).is_ok());
}

#[test]
fn signature_digest_covers_every_shard() {
    let shards = vec![scalar_from_u64(8), scalar_from_u64(9)];
    let h1 = signature_hash(&shards);
    let mut other = shards.clone();
    other[1] = scalar_add(&other[1], &scalar_from_u64(1));
    let h2 = signature_hash(&other);
    assert_ne!(h1.as_bytes(), h2.as_bytes());
}
