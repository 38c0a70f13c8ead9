//! End-to-end runs of the threshold signing service: key generation,
//! signing, resharing, ejection, replay and exhaustion.

use promise_core::curve::{el_bytes, scalar_add, scalar_one, scalar_zero};
use promise_core::dkg::ShareAggregator;
use promise_core::dpss::DpssEpochState;
use promise_core::frost_context::FrostPubKeyContext;
use promise_core::frost_error::FrostError;
use promise_core::frost_state::{FrostEpochState, UpdateSignatureShare};
use promise_core::ids::{num_to_identifier, NodeID, VoteGroup, VoteID};
use promise_core::matrix::Matrix;
use promise_core::poly::{generate_polynomial_commitments, PolynomialCommitment};
use promise_core::sign_manager::SignManager;
use promise_core::sign_task::verify_signature;
use promise_core::signer_group::FrostSignerGroup;

fn point_bytes(p: &k256::ProjectivePoint) -> Vec<u8> {
    el_bytes(p)
}

/// One vote per member, members 1..=n.
fn make_context(
    n: u16,
    threshold: usize,
    commitment: &PolynomialCommitment,
) -> FrostPubKeyContext {
    let mut verifying_shares = Vec::new();
    let mut identifier_groups = Vec::new();
    for v in 1..=n {
        let x = num_to_identifier(v as usize);
        verifying_shares.push((v as u64, commitment.evaluate(&x)));
        identifier_groups.push((NodeID(v), vec![v as u64]));
    }
    FrostPubKeyContext {
        epoch: 0,
        verifying_key: commitment.constant_term(),
        verifying_shares,
        identifier_groups,
        num_signing_shares: threshold,
    }
}

/// Runs a key generation with `dealers` dealers over votes 1..=n and a
/// polynomial of the given degree; returns the joint commitment and the
/// per-vote joint signing shares.
fn run_dkg(n: u16, degree: usize, dealers: usize) -> (PolynomialCommitment, Vec<k256::Scalar>) {
    let vote_ids: Vec<VoteID> = (1..=n as usize).map(VoteID::new).collect();
    let mut agg = ShareAggregator::new(vote_ids.clone());
    for _ in 0..dealers {
        let (pc, shares) = generate_polynomial_commitments(degree, &vote_ids, None);
        let affine = pc.to_affine();
        let hash = affine.hash();
        let share_scalars: Vec<k256::Scalar> = shares.iter().map(|s| s.1).collect();
        agg.receive_secret_share(affine, share_scalars).unwrap();
        agg.accept_polynomial_commitment(hash).unwrap();
    }
    let joint = agg.finalize();
    let scalars: Vec<k256::Scalar> = joint.shares.iter().map(|s| s.1).collect();
    (joint.commitment, scalars)
}

/// Builds a started epoch over members 1..=n, each holding one share and
/// pre-committing `nonces` nonce pairs.
fn start_epoch(
    n: u16,
    threshold: usize,
    commitment: &PolynomialCommitment,
    shares: &[k256::Scalar],
    nonces: usize,
) -> (FrostEpochState, Vec<SignManager>) {
    let ctx = make_context(n, threshold, commitment);
    let group = FrostSignerGroup::new(ctx);
    let mut state = FrostEpochState::new(group);
    let mut managers = Vec::new();
    for v in 1..=n {
        let mut mgr = SignManager::new(0, NodeID(v), vec![shares[(v - 1) as usize]]);
        let commitments = mgr.make_nonce_commitments(0, nonces);
        state
            .receive_nonce_commitments(NodeID(v), commitments)
            .unwrap();
        managers.push(mgr);
    }
    state.start_round(1).unwrap();
    (state, managers)
}

/// Drives one task to completion with the given members' shares.
fn complete_task(
    state: &mut FrostEpochState,
    managers: &[SignManager],
    task: promise_core::sign_task_manager::SignTaskID,
    signers: &[u16],
) -> promise_core::sign_task::Signature {
    let mut done = None;
    for &v in signers {
        if done.is_some() {
            break;
        }
        let share = managers[(v - 1) as usize].sign(state, task).unwrap();
        if let Some(share) = share {
            match state.receive_signature_share(task, NodeID(v), share).unwrap() {
                UpdateSignatureShare::Pending => {}
                UpdateSignatureShare::Done(sig) => {
                    done = Some(sig);
                }
                UpdateSignatureShare::Retry(_) => panic!("unexpected retry"),
            }
        }
    }
    done.expect("signature incomplete")
}

#[test]
fn three_of_four_dkg_and_sign() {
    let (commitment, shares) = run_dkg(4, 2, 4);
    let (mut state, managers) = start_epoch(4, 3, &commitment, &shares, 2);
    let message = b"hello".to_vec();
    let task = state.receive_sign_task(message.clone()).unwrap();
    // the threshold picks the first three members; they sign
    let sig = complete_task(&mut state, &managers, task, &[1, 2, 3]);
    let vk = commitment.constant_term();
    assert!(verify_signature(&vk, &message, &sig));
}

#[test]
fn reshare_preserves_public_key() {
    let (commitment, shares) = run_dkg(4, 2, 4);
    let vk = commitment.constant_term();

    // the epoch's element matrix: column zero carries the secret's point
    // and the per-vote verifying shares
    let mut col0 = vec![commitment.constant_term()];
    for v in 1..=4usize {
        let x = num_to_identifier(v);
        col0.push(commitment.evaluate(&x));
    }
    let mut last_matrix = Matrix::new(5, 2);
    last_matrix.set_col(0, &col0);

    let groups = VoteGroup::new(
        (1..=4u16)
            .map(|v| (NodeID(v), vec![VoteID::new(v as usize)]))
            .collect(),
    );
    let mut dpss = DpssEpochState::new(1, last_matrix, groups, 1, 4, 3);

    // a zero-secret key generation shifts the shares without moving the key
    let vote_ids: Vec<VoteID> = (1..=4usize).map(VoteID::new).collect();
    let zero = scalar_zero();
    let (dkg_pc, dkg_shares) = generate_polynomial_commitments(2, &vote_ids, Some(&zero));
    dpss.receive_dkg_participate(NodeID(1), dkg_pc.to_affine())
        .unwrap();
    assert!(dpss.try_finish_dkg_stage().unwrap());

    // every share-holder deals a polynomial whose constant term is its
    // shifted share
    let mut new_shares = Vec::new();
    for v in 1..=4usize {
        let shifted = scalar_add(&shares[v - 1], &dkg_shares[v - 1].1);
        new_shares.push(shifted);
        let (reshare_pc, _) = generate_polynomial_commitments(2, &vec![], Some(&shifted));
        dpss.receive_reshare_message(VoteID::new(v), reshare_pc)
            .unwrap();
    }

    let new_matrix = dpss.into_complete_matrix().unwrap();
    let groups2 = VoteGroup::new(
        (1..=4u16)
            .map(|v| (NodeID(v), vec![VoteID::new(v as usize)]))
            .collect(),
    );
    let dpss2 = DpssEpochState::new(2, new_matrix, groups2, 1, 4, 3);
    let ctx2 = dpss2.make_frost_context();

    // the key did not move
    assert_eq!(point_bytes(&ctx2.verifying_key), point_bytes(&vk));

    // signing under the new shares still verifies against the old key
    let group2 = FrostSignerGroup::new(ctx2);
    let mut state2 = FrostEpochState::new(group2);
    let mut managers = Vec::new();
    for v in 1..=4u16 {
        let mut mgr = SignManager::new(0, NodeID(v), vec![new_shares[(v - 1) as usize]]);
        let commitments = mgr.make_nonce_commitments(0, 2);
        state2
            .receive_nonce_commitments(NodeID(v), commitments)
            .unwrap();
        managers.push(mgr);
    }
    state2.start_round(1).unwrap();
    let message = b"hello".to_vec();
    let task = state2.receive_sign_task(message.clone()).unwrap();
    let sig = complete_task(&mut state2, &managers, task, &[1, 2, 3]);
    assert!(verify_signature(&vk, &message, &sig));
}

#[test]
fn invalid_share_ejects_and_retries() {
    let (commitment, shares) = run_dkg(5, 2, 5);
    let (mut state, managers) = start_epoch(5, 3, &commitment, &shares, 3);
    let message = b"hello".to_vec();
    let task = state.receive_sign_task(message.clone()).unwrap();

    // member two tampers with its share
    let good = managers[1].sign(&state, task).unwrap().unwrap();
    let bad = scalar_add(&good, &scalar_one());
    let retry_task = match state
        .receive_signature_share(task, NodeID(2), bad)
        .unwrap()
    {
        UpdateSignatureShare::Retry(id) => id,
        _ => panic!("expected a retry"),
    };

    // member two is gone
    let valid: Vec<NodeID> = state.valid_nodes();
    assert!(!valid.contains(&NodeID(2)));

    // the retry completes with the remaining members
    let sig = complete_task(&mut state, &managers, retry_task, &[1, 3, 4, 5]);
    let vk = commitment.constant_term();
    assert!(verify_signature(&vk, &message, &sig));
}

#[test]
fn insufficient_votes_fails_fast() {
    let (commitment, _shares) = run_dkg(5, 3, 5);
    let ctx = make_context(5, 4, &commitment);
    let mut group = FrostSignerGroup::new(ctx);
    for v in 1..=5u16 {
        group.insert_node(&NodeID(v)).unwrap();
    }
    group.update_aggregated_verifying_shares().unwrap();
    // ejecting two members leaves three votes against a threshold of four
    let removed = vec![NodeID(4), NodeID(5)];
    assert_eq!(
        group.remove_nodes(&removed),
        Err(FrostError::NotEnoughSigningShares)
    );
    assert_eq!(
        group.check_enough_shares(),
        Err(FrostError::NotEnoughSigningShares)
    );
}

#[test]
fn ejections_below_threshold_fail_sign_requests() {
    // five members of one vote each against a threshold of four
    let (commitment, shares) = run_dkg(5, 3, 5);
    let (mut state, managers) = start_epoch(5, 4, &commitment, &shares, 4);
    let message = b"hello".to_vec();
    let t1 = state.receive_sign_task(message.clone()).unwrap();

    // first ejection: member two; the remaining four still meet the bar
    let good2 = managers[1].sign(&state, t1).unwrap().unwrap();
    let bad2 = scalar_add(&good2, &scalar_one());
    let t2 = match state.receive_signature_share(t1, NodeID(2), bad2).unwrap() {
        UpdateSignatureShare::Retry(id) => id,
        _ => panic!("expected a retry"),
    };

    // second ejection: member three; three votes remain against four
    let good3 = managers[2].sign(&state, t2).unwrap().unwrap();
    let bad3 = scalar_add(&good3, &scalar_one());
    assert!(matches!(
        state.receive_signature_share(t2, NodeID(3), bad3),
        Err(FrostError::NotEnoughSigningShares)
    ));

    // the shortage is cached: the next sign request fails fast
    assert!(matches!(
        state.receive_sign_task(message),
        Err(FrostError::NotEnoughSigningShares)
    ));
}

#[test]
fn tasks_consume_successive_nonce_indices() {
    let (commitment, shares) = run_dkg(4, 2, 4);
    let (mut state, _managers) = start_epoch(4, 3, &commitment, &shares, 3);
    let t1 = state.receive_sign_task(b"one".to_vec()).unwrap();
    let t2 = state.receive_sign_task(b"two".to_vec()).unwrap();
    assert_eq!(state.sign_task(t1).unwrap().nonce_index(), 0);
    assert_eq!(state.sign_task(t2).unwrap().nonce_index(), 1);
}

#[test]
fn recycle_ejects_non_contributors() {
    // four members of one vote each, threshold two: the task's
    // participants are members one and two
    let (commitment, shares) = run_dkg(4, 1, 4);
    let (mut state, managers) = start_epoch(4, 2, &commitment, &shares, 3);
    let message = b"hello".to_vec();
    let task = state.receive_sign_task(message).unwrap();

    // member one contributes; the task then times out
    let share = managers[0].sign(&state, task).unwrap().unwrap();
    assert!(matches!(
        state.receive_signature_share(task, NodeID(1), share),
        Ok(UpdateSignatureShare::Pending)
    ));
    let outcome = state.recycle_timeout_sign_tasks(1);

    // everyone but the contributor is ejected, which leaves the group
    // short of the threshold, so the reopening fails
    assert!(matches!(outcome, Err(FrostError::NotEnoughSigningShares)));
    assert_eq!(state.valid_nodes(), vec![NodeID(1)]);
    // the timed-out task is closed
    assert!(state.sign_task(task).is_err());
}

#[test]
fn recycle_leaves_unexpired_tasks_alone() {
    let (commitment, shares) = run_dkg(4, 2, 4);
    let (mut state, _managers) = start_epoch(4, 3, &commitment, &shares, 2);
    state.start_round(5).unwrap();
    let task = state.receive_sign_task(b"hello".to_vec()).unwrap();
    // nothing is filed at or before round one
    state.recycle_timeout_sign_tasks(1).unwrap();
    assert!(state.sign_task(task).is_ok());
    assert_eq!(state.valid_nodes().len(), 4);
}

#[test]
fn signature_serializes_as_point_then_scalar() {
    let (commitment, shares) = run_dkg(4, 2, 4);
    let (mut state, managers) = start_epoch(4, 3, &commitment, &shares, 2);
    let message = b"hello".to_vec();
    let task = state.receive_sign_task(message.clone()).unwrap();
    let sig = complete_task(&mut state, &managers, task, &[1, 2, 3]);
    let bytes = sig.serialize();
    assert_eq!(bytes.len(), 65);
    assert_eq!(&bytes[..33], promise_core::curve::el_bytes(&sig.big_r).as_slice());
    assert_eq!(
        &bytes[33..],
        promise_core::curve::scalar_bytes(&sig.z).as_slice()
    );
}

#[test]
fn nonce_and_share_errors_are_reported() {
    let (commitment, shares) = run_dkg(4, 2, 4);
    let ctx = make_context(4, 3, &commitment);
    let group = FrostSignerGroup::new(ctx);
    let mut state = FrostEpochState::new(group);

    // signing before any round fails
    assert!(matches!(
        state.receive_sign_task(b"early".to_vec()),
        Err(FrostError::EpochNotStart)
    ));

    // an identity commitment pair is refused
    let identity_pair = vec![(
        k256::ProjectivePoint::IDENTITY,
        el_mul_base_point(2),
    )];
    assert!(matches!(
        state.receive_nonce_commitments(NodeID(1), identity_pair),
        Err(FrostError::IdentityNonceCommitment)
    ));

    // an unknown member cannot register
    let mut outsider = SignManager::new(0, NodeID(9), vec![shares[0]]);
    let pairs = outsider.make_nonce_commitments(0, 1);
    assert!(matches!(
        state.receive_nonce_commitments(NodeID(9), pairs),
        Err(FrostError::UnknownNodeID)
    ));

    // set up the real members and start the epoch
    let mut managers = Vec::new();
    for v in 1..=4u16 {
        let mut mgr = SignManager::new(0, NodeID(v), vec![shares[(v - 1) as usize]]);
        let commitments = mgr.make_nonce_commitments(0, 2);
        state
            .receive_nonce_commitments(NodeID(v), commitments)
            .unwrap();
        managers.push(mgr);
    }
    state.start_round(1).unwrap();

    // after the first round, a first-time pre-commit is too late
    let mut late = SignManager::new(0, NodeID(7), vec![shares[0]]);
    let late_pairs = late.make_nonce_commitments(0, 1);
    assert!(matches!(
        state.receive_nonce_commitments(NodeID(7), late_pairs),
        Err(FrostError::TooLatePreCommit)
    ));

    // a share for an unknown task is refused
    let ghost_task = promise_core::sign_task_manager::SignTaskID(99);
    let some_scalar = promise_core::curve::scalar_from_u64(5);
    assert!(matches!(
        state.receive_signature_share(ghost_task, NodeID(1), some_scalar),
        Err(FrostError::UnknownSignTask)
    ));

    // a share from a member outside the task's participants is unknown
    let task = state.receive_sign_task(b"hello".to_vec()).unwrap();
    let outsider_share = promise_core::curve::scalar_from_u64(5);
    assert!(matches!(
        state.receive_signature_share(task, NodeID(4), outsider_share),
        Err(FrostError::UnknownSigner)
    ));

    // an ejected member cannot top up its stream
    let bad = scalar_add(
        &managers[1].sign(&state, task).unwrap().unwrap(),
        &scalar_one(),
    );
    assert!(matches!(
        state.receive_signature_share(task, NodeID(2), bad),
        Ok(UpdateSignatureShare::Retry(_))
    ));
    let more = managers[1].make_nonce_commitments(2, 1);
    assert!(matches!(
        state.receive_nonce_commitments(NodeID(2), more),
        Err(FrostError::EjectedNode)
    ));
}

fn el_mul_base_point(v: u64) -> k256::ProjectivePoint {
    promise_core::curve::el_mul_base(&promise_core::curve::scalar_from_u64(v))
}

#[test]
fn replayed_share_is_rejected() {
    let (commitment, shares) = run_dkg(4, 2, 4);
    let (mut state, managers) = start_epoch(4, 3, &commitment, &shares, 2);
    let message = b"hello".to_vec();
    let task = state.receive_sign_task(message).unwrap();
    let share = managers[0].sign(&state, task).unwrap().unwrap();
    match state.receive_signature_share(task, NodeID(1), share).unwrap() {
        UpdateSignatureShare::Pending => {}
        _ => panic!("expected pending"),
    }
    let again = managers[0].sign(&state, task).unwrap().unwrap();
    assert!(matches!(
        state.receive_signature_share(task, NodeID(1), again),
        Err(FrostError::DuplicatedSignatureShare)
    ));
}

#[test]
fn nonce_exhaustion_drops_node_then_fails() {
    let (commitment, shares) = run_dkg(4, 2, 4);
    // member four pre-commits a single pair, the others three
    let ctx = make_context(4, 3, &commitment);
    let group = FrostSignerGroup::new(ctx);
    let mut state = FrostEpochState::new(group);
    let mut managers = Vec::new();
    for v in 1..=4u16 {
        let mut mgr = SignManager::new(0, NodeID(v), vec![shares[(v - 1) as usize]]);
        let count = if v == 4 { 1 } else { 3 };
        let commitments = mgr.make_nonce_commitments(0, count);
        state
            .receive_nonce_commitments(NodeID(v), commitments)
            .unwrap();
        managers.push(mgr);
    }
    state.start_round(1).unwrap();
    let message = b"hello".to_vec();

    // the first task consumes index zero for everyone
    let t1 = state.receive_sign_task(message.clone()).unwrap();
    let sig = complete_task(&mut state, &managers, t1, &[1, 2, 3]);
    assert!(verify_signature(
        &commitment.constant_term(),
        &message,
        &sig
    ));

    // member four's stream is exhausted: it is dropped silently and the
    // next tasks still meet the threshold
    let t2 = state.receive_sign_task(message.clone()).unwrap();
    let sig2 = complete_task(&mut state, &managers, t2, &[1, 2, 3]);
    assert!(verify_signature(
        &commitment.constant_term(),
        &message,
        &sig2
    ));

    // once every stream is exhausted, a pull fails for want of pairs
    let t3 = state.receive_sign_task(message.clone()).unwrap();
    let _ = t3;
    assert!(matches!(
        state.receive_sign_task(message),
        Err(FrostError::NotEnoughUnusedPreCommit)
    ));
}
