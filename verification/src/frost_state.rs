//! The epoch's top-level signing driver: routes nonce pre-commits, sign
//! requests and signature shares, ejecting misbehaving members and
//! retrying their tasks.

use vstd::prelude::*;
use crate::frost_error::FrostError;
use crate::ids::NodeID;
use crate::nonce_commitments::EpochNonceCommitments;
use crate::sign_task::Signature;
use crate::sign_task_manager::{SignTaskID, SignTaskManager};
use crate::signer_group::{avail_shares, FrostSignerGroup};

verus! {

/// What a routed signature share produced.
pub enum UpdateSignatureShare {
    /// More shares are still needed.
    Pending,
    /// The share was invalid; the signer was ejected and the message
    /// reopened under a fresh task.
    Retry(SignTaskID),
    /// Every share arrived; the signature is complete.
    Done(Signature),
}

pub struct FrostEpochState {
    signer_group: FrostSignerGroup,
    nonce_commitments: EpochNonceCommitments,
    sign_task_manager: SignTaskManager,
    current_round: Option<usize>,
}

impl FrostEpochState {
    pub closed spec fn group(&self) -> FrostSignerGroup {
        self.signer_group
    }

    pub closed spec fn pool(&self) -> EpochNonceCommitments {
        self.nonce_commitments
    }

    pub closed spec fn manager(&self) -> SignTaskManager {
        self.sign_task_manager
    }

    pub closed spec fn round(&self) -> Option<usize> {
        self.current_round
    }

    pub open spec fn well_formed(&self) -> bool {
        &&& self.group().well_formed()
        &&& self.pool().well_formed()
        &&& self.manager().well_formed()
    }

    /// A fresh epoch around the given signer group, with an empty nonce
    /// pool and no open tasks; no round has started yet.
    pub fn new(signer_group: FrostSignerGroup) -> (r: FrostEpochState)
        requires
            signer_group.well_formed(),
        ensures
            r.well_formed(),
            r.round() is None,
            r.group() == signer_group,
    {
        FrostEpochState {
            signer_group,
            nonce_commitments: EpochNonceCommitments::new(),
            sign_task_manager: SignTaskManager::new(),
            current_round: None,
        }
    }

    pub fn epoch(&self) -> (r: u64)
        ensures
            r == self.group().ctx().epoch,
    {
        self.signer_group.epoch_value()
    }

    /// The currently valid members, in order.
    pub fn valid_nodes(&self) -> (r: Vec<NodeID>)
        ensures
            r@ == self.group().valid(),
    {
        self.signer_group.valid_nodes()
    }

    pub fn current_round(&self) -> (r: Result<usize, FrostError>)
        ensures
            r is Ok <==> self.round() is Some,
            r matches Ok(v) ==> self.round() == Some(v),
            r is Err ==> r == Result::<usize, FrostError>::Err(FrostError::EpochNotStart),
    {
        match self.current_round {
            Some(r) => Ok(r),
            None => Err(FrostError::EpochNotStart),
        }
    }

    /// The open task under the identifier.
    pub fn sign_task(&self, id: SignTaskID) -> (r: Result<&crate::sign_task::FrostSignTask, FrostError>)
        requires
            self.well_formed(),
        ensures
            r is Ok <==> self.manager().has_task(id),
            r matches Ok(t) ==> t.well_formed() && *t == self.manager().task_at(id),
    {
        self.sign_task_manager.get(id)
    }

    /// Starts (or advances) the round clock. The first call freshens the
    /// aggregated verifying shares for the registered members.
    pub fn start_round(&mut self, round: usize) -> (r: Result<(), FrostError>)
        requires
            old(self).well_formed(),
        ensures
            final(self).well_formed(),
            r is Ok ==> final(self).round() == Some(round),
            old(self).round() is Some ==> r is Ok && final(self).group() == old(self).group(),
            // the first call succeeds exactly when the registered members
            // hold enough shares, and then the aggregation is fresh
            old(self).round() is None ==> (r is Ok <==> avail_shares(
                old(self).group().ctx(),
                old(self).group().valid(),
            ) >= old(self).group().ctx().num_signing_shares),
            old(self).round() is None && r is Ok ==> final(self).group().aggregation_fresh(),
            r is Err ==> r == Result::<(), FrostError>::Err(FrostError::NotEnoughSigningShares)
                && final(self).round() is None,
    {
        if self.current_round.is_none() {
            match self.signer_group.update_aggregated_verifying_shares() {
                Ok(_) => {},
                Err(e) => {
                    return Err(e);
                },
            }
        }
        self.current_round = Some(round);
        Ok(())
    }

    /// Routes a member's pre-committed nonce pairs. Before the first
    /// round they may also register the member with the signer group;
    /// afterwards only known, still-valid members may top up.
    pub fn receive_nonce_commitments(
        &mut self,
        node_id: NodeID,
        nonce_commitments: Vec<(k256::ProjectivePoint, k256::ProjectivePoint)>,
    ) -> (r: Result<(), FrostError>)
        requires
            old(self).well_formed(),
        ensures
            final(self).well_formed(),
            final(self).round() == old(self).round(),
            r is Ok ==> final(self).pool().has_node(node_id),
            r is Ok && old(self).round() is None ==> final(self).group().contains_spec(node_id),
            old(self).round() is Some && r is Ok ==> final(self).group() == old(self).group(),
            // a pair holding the identity is refused outright
            r == Result::<(), FrostError>::Err(FrostError::IdentityNonceCommitment) <==> exists|
                m: int,
            |
                0 <= m < nonce_commitments@.len() && (crate::curve::point_log(
                    (#[trigger] nonce_commitments@[m]).0,
                ) == 0 || crate::curve::point_log(nonce_commitments@[m].1) == 0),
            // after the first round, only known still-valid members top up
            !(exists|m: int|
                0 <= m < nonce_commitments@.len() && (crate::curve::point_log(
                    (#[trigger] nonce_commitments@[m]).0,
                ) == 0 || crate::curve::point_log(nonce_commitments@[m].1) == 0)) && old(self).round() is Some ==> {
                &&& (r == Result::<(), FrostError>::Err(FrostError::TooLatePreCommit) <==> !old(self).pool().has_node(node_id))
                &&& (r == Result::<(), FrostError>::Err(FrostError::EjectedNode) <==> old(self).pool().has_node(node_id) && !old(self).group().contains_spec(node_id))
                &&& (r is Ok <==> old(self).pool().has_node(node_id) && old(self).group().contains_spec(node_id))
            },
            // before the first round, any committee member registers
            !(exists|m: int|
                0 <= m < nonce_commitments@.len() && (crate::curve::point_log(
                    (#[trigger] nonce_commitments@[m]).0,
                ) == 0 || crate::curve::point_log(nonce_commitments@[m].1) == 0)) && old(self).round() is None ==> (r is Ok <==> old(self).group().ctx().has_node(node_id)) && (r
                == Result::<(), FrostError>::Err(FrostError::UnknownNodeID) <==> !old(self).group().ctx().has_node(node_id)),
            // an accepted pre-commit extends the member's stream
            r is Ok ==> final(self).pool().stream_of(node_id) == if old(self).pool().has_node(
                node_id,
            ) {
                old(self).pool().stream_of(node_id) + nonce_commitments@
            } else {
                nonce_commitments@
            },
    {
        let accept_new_node = self.current_round.is_none();
        match self.nonce_commitments.insert_commitments(
            node_id,
            &self.signer_group,
            nonce_commitments,
            accept_new_node,
        ) {
            Ok(_) => {},
            Err(e) => {
                return Err(e);
            },
        }
        if accept_new_node {
            match self.signer_group.insert_node(&node_id) {
                Ok(_) => {},
                Err(e) => {
                    return Err(e);
                },
            }
        }
        Ok(())
    }

    /// Opens a signing task for a message: consumes one nonce pair per
    /// valid member and files the task under the current round. Fails
    /// before the first round, on nonce shortage, or when the remaining
    /// members fall short of the threshold.
    pub fn receive_sign_task(&mut self, message: Vec<u8>) -> (r: Result<SignTaskID, FrostError>)
        requires
            old(self).well_formed(),
            old(self).pool().next_idx() < usize::MAX,
            old(self).manager().next_id() < usize::MAX,
        ensures
            final(self).well_formed(),
            r == Result::<SignTaskID, FrostError>::Err(FrostError::EpochNotStart) <==> old(self).round() is None,
            r is Err ==> r == Result::<SignTaskID, FrostError>::Err(FrostError::EpochNotStart)
                || r == Result::<SignTaskID, FrostError>::Err(
                FrostError::NotEnoughUnusedPreCommit,
            ) || r == Result::<SignTaskID, FrostError>::Err(FrostError::NotEnoughSigningShares),
            // the nonce shortage is exact
            old(self).round() is Some ==> (r == Result::<SignTaskID, FrostError>::Err(
                FrostError::NotEnoughUnusedPreCommit,
            ) <==> crate::nonce_commitments::available_prefix(
                old(self).pool().streams(),
                old(self).group(),
                old(self).pool().next_idx(),
                old(self).pool().streams().len() as int,
            ) <= 1),
            // success is owed on the clean path
            old(self).round() is Some && crate::nonce_commitments::available_prefix(
                old(self).pool().streams(),
                old(self).group(),
                old(self).pool().next_idx(),
                old(self).pool().streams().len() as int,
            ) >= 2 && (forall|s: int|
                0 <= s < old(self).pool().streams().len() && old(self).group().contains_spec(
                    (#[trigger] old(self).pool().streams()[s]).0,
                ) ==> old(self).pool().next_idx() < old(self).pool().streams()[s].1@.len()) && (
            old(self).group().cached() matches Some(c) ==> c
                >= old(self).group().ctx().num_signing_shares) ==> r is Ok,
            // the new task carries the message under the consumed index
            r matches Ok(id) ==> final(self).manager().has_task(id) && final(self).manager().task_at(id).message_spec() == message@ && final(self).manager().task_at(
                id,
            ).nonce_index_spec() == old(self).pool().next_idx() && final(self).pool().next_idx()
                == old(self).pool().next_idx() + 1 && id.0 == old(self).manager().next_id(),
            // other tasks are untouched; the member set only shrinks
            forall|id2: SignTaskID|
                old(self).manager().has_task(id2) ==> (#[trigger] final(self).manager().has_task(
                    id2,
                )) && final(self).manager().task_at(id2) == old(self).manager().task_at(id2),
            r matches Ok(id) ==> forall|id2: SignTaskID|
                id2.0 != id.0 ==> (#[trigger] final(self).manager().has_task(id2)) == old(self).manager().has_task(id2),
            r is Err ==> forall|id2: SignTaskID|
                (#[trigger] final(self).manager().has_task(id2)) == old(self).manager().has_task(
                    id2,
                ),
            forall|n: NodeID|
                #[trigger] final(self).group().contains_spec(n) ==> old(self).group().contains_spec(n),
            final(self).manager().next_id() == old(self).manager().next_id() + (if r is Ok {
                1int
            } else {
                0int
            }),
    {
        let round = match self.current_round {
            Some(r) => r,
            None => {
                return Err(FrostError::EpochNotStart);
            },
        };

        let (nonce_index, nonce_commitments) = match self.nonce_commitments.pull_next_commitments(
            &mut self.signer_group,
        ) {
            Ok(p) => p,
            Err(e) => {
                return Err(e);
            },
        };

        let task = self.signer_group.make_sign_task(nonce_index, &nonce_commitments, message);
        let id = self.sign_task_manager.insert_sign_task(task, round);
        Ok(id)
    }

    /// Routes one member's signature share to its task. A share that
    /// fails verification ejects the member and reopens the message under
    /// a fresh task; the last missing share completes the signature.
    pub fn receive_signature_share(
        &mut self,
        task_id: SignTaskID,
        node_id: NodeID,
        share: k256::Scalar,
    ) -> (r: Result<UpdateSignatureShare, FrostError>)
        requires
            old(self).well_formed(),
            old(self).pool().next_idx() < usize::MAX,
            old(self).manager().next_id() < usize::MAX,
        ensures
            final(self).well_formed(),
            !old(self).manager().has_task(task_id) ==> r == Result::<
                UpdateSignatureShare,
                FrostError,
            >::Err(FrostError::UnknownSignTask),
            old(self).manager().has_task(task_id) && old(self).manager().task_at(
                task_id,
            ).has_received(node_id.0 as u64) ==> r == Result::<
                UpdateSignatureShare,
                FrostError,
            >::Err(FrostError::DuplicatedSignatureShare),
            old(self).manager().has_task(task_id) ==> {
                // a fresh share that passes its check is recorded or,
                // when it was the last one, aggregated
                &&& (r matches Ok(u) ==> (u is Pending || u is Done <==> !old(self).manager().task_at(task_id).has_received(node_id.0 as u64) && old(self).manager().task_at(task_id).is_participant(node_id.0 as u64) && old(self).manager().task_at(task_id).share_verifies(
                    node_id.0 as u64,
                    crate::curve::scalar_val(share),
                )))
                &&& (r matches Ok(u) ==> (u is Pending ==> final(self).manager().has_task(task_id)
                    && final(self).manager().task_at(task_id).received() == old(self).manager().task_at(task_id).received().push((node_id.0 as u64, share))))
                // a completed signature satisfies the task's equation data
                &&& (r matches Ok(u) ==> (u matches UpdateSignatureShare::Done(sig) ==> !final(self).manager().has_task(
                    task_id,
                ) && crate::curve::point_log(sig.big_r) == old(self).manager().task_at(
                    task_id,
                ).gc_log() && crate::curve::scalar_val(sig.z) == crate::sign_task::share_sum(
                    old(self).manager().task_at(task_id).received().push(
                        (node_id.0 as u64, share),
                    ),
                )))
                // an invalid share ejects the sender and reopens the
                // message under a fresh task
                &&& (r matches Ok(u) ==> (u matches UpdateSignatureShare::Retry(id2) ==> !old(self).manager().task_at(task_id).share_verifies(
                    node_id.0 as u64,
                    crate::curve::scalar_val(share),
                ) && !final(self).group().contains_spec(node_id) && !final(self).manager().has_task(task_id) && final(self).manager().has_task(id2) && final(self).manager().task_at(id2).message_spec() == old(self).manager().task_at(
                    task_id,
                ).message_spec()))
            },
    {
        let identifier = node_id.0 as u64;
        let message = match self.sign_task_manager.task_message(task_id) {
            Ok(m) => m,
            Err(e) => {
                return Err(e);
            },
        };
        match self.sign_task_manager.insert_share(task_id, identifier, share) {
            Ok(Some(sig)) => {
                self.sign_task_manager.complete_sign_task(task_id);
                Ok(UpdateSignatureShare::Done(sig))
            },
            Ok(None) => Ok(UpdateSignatureShare::Pending),
            Err(e) => {
                if matches_invalid(&e) {
                    let mut removed: Vec<NodeID> = Vec::new();
                    removed.push(node_id);
                    proof {
                        assert(removed@[0] == node_id);
                        assert(removed@.contains(node_id));
                    }
                    match self.signer_group.remove_nodes(&removed) {
                        Ok(_) => {},
                        Err(e2) => {
                            return Err(e2);
                        },
                    }
                    self.sign_task_manager.remove_failed_sign_task(task_id);
                    match self.receive_sign_task(message) {
                        Ok(retry_id) => {
                            proof {
                                assert(!self.group().contains_spec(node_id));
                                assert(retry_id.0 != task_id.0);
                                assert(!self.manager().has_task(task_id));
                            }
                            Ok(UpdateSignatureShare::Retry(retry_id))
                        },
                        Err(e2) => Err(e2),
                    }
                } else {
                    Err(e)
                }
            },
        }
    }

    /// Closes every task whose timeout round has passed, ejects the
    /// members that contributed to none of the timed-out tasks (they are
    /// presumed unresponsive), and reopens each closed task's message
    /// under a fresh task.
    pub fn recycle_timeout_sign_tasks(&mut self, latest_round: usize) -> (r: Result<
        (),
        FrostError,
    >)
        requires
            old(self).well_formed(),
        ensures
            final(self).well_formed(),
            // no timed-out task stays open
            forall|idv: SignTaskID|
                #[trigger] final(self).manager().has_task(idv) && old(self).manager().has_task(
                    idv,
                ) ==> !old(self).manager().in_expired_bucket(idv, latest_round),
            // each timed-out task's message is open again under some task
            r is Ok ==> forall|idv0: SignTaskID|
                old(self).manager().has_task(idv0) && old(self).manager().in_expired_bucket(
                    idv0,
                    latest_round,
                ) ==> exists|idv: SignTaskID|
                    #[trigger] final(self).manager().has_task(idv) && final(self).manager().task_at(idv).message_spec() == old(self).manager().task_at(
                        idv0,
                    ).message_spec(),
            // when anything timed out, only members that contributed to
            // some timed-out task stay in the group
            (exists|idv0: SignTaskID|
                old(self).manager().has_task(idv0) && old(self).manager().in_expired_bucket(
                    idv0,
                    latest_round,
                )) ==> forall|n: NodeID|
                #[trigger] final(self).group().contains_spec(n) ==> exists|idv0: SignTaskID|
                    old(self).manager().has_task(idv0) && old(self).manager().in_expired_bucket(
                        idv0,
                        latest_round,
                    ) && old(self).manager().task_at(idv0).has_received(n.0 as u64),
    {
        let ghost m0 = self.manager();
        let removed = self.sign_task_manager.gc_sign_tasks(latest_round);

        if removed.len() > 0 {
            // eject every member with no share in any timed-out task
            let valid = self.signer_group.valid_nodes();
            let mut to_eject: Vec<NodeID> = Vec::new();
            let mut v: usize = 0;
            while v < valid.len()
                invariant
                    0 <= v <= valid@.len(),
                    self.well_formed(),
                    forall|n: NodeID|
                        #[trigger] to_eject@.contains(n) <==> exists|w: int|
                            0 <= w < v && (#[trigger] valid@[w]) == n && !(exists|k: int|
                                0 <= k < removed@.len() && (#[trigger] removed@[k]).1.has_received(
                                    n.0 as u64,
                                )),
                decreases valid@.len() - v,
            {
                let node = valid[v];
                let mut contributed: bool = false;
                let mut k: usize = 0;
                while k < removed.len()
                    invariant
                        0 <= k <= removed@.len(),
                        node == valid@[v as int],
                        contributed ==> exists|k2: int|
                            0 <= k2 < removed@.len() && (#[trigger] removed@[k2]).1.has_received(
                                node.0 as u64,
                            ),
                        !contributed ==> forall|k2: int|
                            0 <= k2 < k ==> !(#[trigger] removed@[k2]).1.has_received(
                                node.0 as u64,
                            ),
                    decreases removed@.len() - k,
                {
                    if removed[k].1.has_received_share(node.0 as u64) {
                        contributed = true;
                        proof {
                            assert((#[trigger] removed@[k as int]).1.has_received(node.0 as u64));
                        }
                    }
                    k = k + 1;
                }
                let ghost old_eject = to_eject@;
                if !contributed {
                    to_eject.push(node);
                }
                proof {
                    assert forall|n: NodeID|
                        #[trigger] to_eject@.contains(n) <==> exists|w: int|
                            0 <= w < v + 1 && (#[trigger] valid@[w]) == n && !(exists|k2: int|
                                0 <= k2 < removed@.len() && (#[trigger] removed@[k2]).1.has_received(
                                    n.0 as u64,
                                )) by {
                        if to_eject@.contains(n) {
                            let x = choose|x: int| 0 <= x < to_eject@.len() && to_eject@[x] == n;
                            if x < old_eject.len() {
                                assert(old_eject[x] == n);
                                assert(old_eject.contains(n));
                                let w = choose|w: int|
                                    0 <= w < v && (#[trigger] valid@[w]) == n && !(exists|k2: int|
                                        0 <= k2 < removed@.len() && (
                                        #[trigger] removed@[k2]).1.has_received(n.0 as u64));
                                assert(0 <= w < v + 1 && valid@[w] == n);
                            } else {
                                assert(to_eject@[x] == node);
                                assert((#[trigger] valid@[v as int]) == n);
                            }
                        }
                        if exists|w: int|
                            0 <= w < v + 1 && (#[trigger] valid@[w]) == n && !(exists|k2: int|
                                0 <= k2 < removed@.len() && (#[trigger] removed@[k2]).1.has_received(
                                    n.0 as u64,
                                )) {
                            let w = choose|w: int|
                                0 <= w < v + 1 && (#[trigger] valid@[w]) == n && !(exists|k2: int|
                                    0 <= k2 < removed@.len() && (
                                    #[trigger] removed@[k2]).1.has_received(n.0 as u64));
                            if w < v {
                                assert(old_eject.contains(n));
                                let x = choose|x: int|
                                    0 <= x < old_eject.len() && old_eject[x] == n;
                                assert(to_eject@[x] == n);
                            } else {
                                assert(n == node);
                                assert(!contributed);
                                assert(to_eject@[to_eject@.len() - 1] == n);
                            }
                            assert(to_eject@.contains(n));
                        }
                    }
                }
                v = v + 1;
            }
            match self.signer_group.remove_nodes(&to_eject) {
                Ok(_) => {},
                Err(e) => {
                    proof {
                        assert forall|n: NodeID|
                        #[trigger] self.group().contains_spec(n) implies exists|
                        idv0: SignTaskID,
                    |
                        old(self).manager().has_task(idv0) && old(
                            self,
                        ).manager().in_expired_bucket(idv0, latest_round) && old(
                            self,
                        ).manager().task_at(idv0).has_received(n.0 as u64) by {
                        assert(old(self).group().contains_spec(n));
                        let w = choose|w: int|
                            0 <= w < old(self).group().valid().len() && (
                            #[trigger] old(self).group().valid()[w]) == n;
                        assert(valid@[w] == n);
                        assert(!to_eject@.contains(n));
                        if !(exists|k2: int|
                            0 <= k2 < removed@.len() && (#[trigger] removed@[k2]).1.has_received(
                                n.0 as u64,
                            )) {
                            assert(to_eject@.contains(n));
                        }
                        let k2 = choose|k2: int|
                            0 <= k2 < removed@.len() && (#[trigger] removed@[k2]).1.has_received(
                                n.0 as u64,
                            );
                        assert(old(self).manager().has_task(removed@[k2].0));
                        assert(old(self).manager().in_expired_bucket(
                            removed@[k2].0,
                            latest_round,
                        ));
                        assert(removed@[k2].1 == old(self).manager().task_at(removed@[k2].0));
                    }
                    }
                    return Err(e);
                },
            }
            proof {
                assert forall|n: NodeID|
                        #[trigger] self.group().contains_spec(n) implies exists|
                        idv0: SignTaskID,
                    |
                        old(self).manager().has_task(idv0) && old(
                            self,
                        ).manager().in_expired_bucket(idv0, latest_round) && old(
                            self,
                        ).manager().task_at(idv0).has_received(n.0 as u64) by {
                        assert(old(self).group().contains_spec(n));
                        let w = choose|w: int|
                            0 <= w < old(self).group().valid().len() && (
                            #[trigger] old(self).group().valid()[w]) == n;
                        assert(valid@[w] == n);
                        assert(!to_eject@.contains(n));
                        if !(exists|k2: int|
                            0 <= k2 < removed@.len() && (#[trigger] removed@[k2]).1.has_received(
                                n.0 as u64,
                            )) {
                            assert(to_eject@.contains(n));
                        }
                        let k2 = choose|k2: int|
                            0 <= k2 < removed@.len() && (#[trigger] removed@[k2]).1.has_received(
                                n.0 as u64,
                            );
                        assert(old(self).manager().has_task(removed@[k2].0));
                        assert(old(self).manager().in_expired_bucket(
                            removed@[k2].0,
                            latest_round,
                        ));
                        assert(removed@[k2].1 == old(self).manager().task_at(removed@[k2].0));
                    }
            }
        }

        proof {
            if removed@.len() == 0 {
                if exists|idv0: SignTaskID|
                    old(self).manager().has_task(idv0) && old(self).manager().in_expired_bucket(
                        idv0,
                        latest_round,
                    ) {
                    let idv0 = choose|idv0: SignTaskID|
                        old(self).manager().has_task(idv0) && old(
                            self,
                        ).manager().in_expired_bucket(idv0, latest_round);
                    assert(exists|k: int|
                        0 <= k < removed@.len() && (#[trigger] removed@[k]).0.0 == idv0.0);
                    assert(false);
                }
            }
        }

        // reopen every closed task's message under a fresh task
        let ghost mid_group = self.group();
        let mut k: usize = 0;
        while k < removed.len()
            invariant
                0 <= k <= removed@.len(),
                self.well_formed(),
                old(self).well_formed(),
                m0 == old(self).manager(),
                self.manager().next_id() >= m0.next_id(),
                // the ejection verdict stands: with anything timed out,
                // the remaining members all contributed
                (exists|idv0: SignTaskID|
                    old(self).manager().has_task(idv0) && old(self).manager().in_expired_bucket(
                        idv0,
                        latest_round,
                    )) ==> forall|n: NodeID|
                    #[trigger] self.group().contains_spec(n) ==> exists|idv0: SignTaskID|
                        old(self).manager().has_task(idv0) && old(
                            self,
                        ).manager().in_expired_bucket(idv0, latest_round) && old(
                            self,
                        ).manager().task_at(idv0).has_received(n.0 as u64),
                forall|k2: int|
                    0 <= k2 < removed@.len() ==> (#[trigger] removed@[k2]).1.well_formed(),
                // the members only shrink from here on
                forall|n: NodeID|
                    #[trigger] self.group().contains_spec(n) ==> mid_group.contains_spec(n),
                // processed messages stand reopened
                forall|k2: int|
                    0 <= k2 < k ==> exists|idv: SignTaskID|
                        #[trigger] self.manager().has_task(idv) && self.manager().task_at(
                            idv,
                        ).message_spec() == (#[trigger] removed@[k2]).1.message_spec(),
                // expired tasks stay closed
                forall|idv: SignTaskID|
                    #[trigger] self.manager().has_task(idv) && m0.has_task(idv)
                        ==> !m0.in_expired_bucket(idv, latest_round),
            decreases removed@.len() - k,
        {
            if self.nonce_commitments.next_index_value() < usize::MAX
                && self.sign_task_manager.next_id_value() < usize::MAX {
                let ghost pre = *self;
                let message = crate::frost_hash::clone_bytes(removed[k].1.message());
                match self.receive_sign_task(message) {
                    Ok(new_id) => {
                        proof {
                            assert(self.manager().has_task(new_id));
                            assert(self.manager().task_at(new_id).message_spec()
                                == removed@[k as int].1.message_spec());
                            assert forall|k2: int|
                                0 <= k2 < k + 1 implies exists|idv: SignTaskID|
                                    #[trigger] self.manager().has_task(idv)
                                        && self.manager().task_at(idv).message_spec() == (
                                    #[trigger] removed@[k2]).1.message_spec() by {
                                if k2 < k {
                                    let idv = choose|idv: SignTaskID|
                                        #[trigger] pre.manager().has_task(idv)
                                            && pre.manager().task_at(idv).message_spec() == (
                                        removed@[k2]).1.message_spec();
                                    assert(self.manager().has_task(idv));
                                    assert(self.manager().task_at(idv) == pre.manager().task_at(
                                        idv,
                                    ));
                                }
                            }
                            assert forall|idv: SignTaskID|
                                #[trigger] self.manager().has_task(idv) && m0.has_task(idv)
                                    implies !m0.in_expired_bucket(idv, latest_round) by {
                                if idv.0 != new_id.0 {
                                    assert(pre.manager().has_task(idv));
                                } else {
                                    assert(new_id.0 == pre.manager().next_id());
                                    assert(pre.manager().next_id() >= m0.next_id());
                                    if m0.has_task(idv) {
                                        assert(idv.0 < m0.next_id());
                                    }
                                }
                            }
                        }
                    },
                    Err(e) => {
                        return Err(e);
                    },
                }
            } else {
                // the identifier or cursor space is exhausted: no new
                // task can be opened
                return Err(FrostError::NotEnoughUnusedPreCommit);
            }
            k = k + 1;
        }
        proof {
            // every timed-out task's message is covered by the result
            assert forall|idv0: SignTaskID|
                old(self).manager().has_task(idv0) && old(self).manager().in_expired_bucket(
                    idv0,
                    latest_round,
                ) implies exists|idv: SignTaskID|
                    #[trigger] self.manager().has_task(idv) && self.manager().task_at(
                        idv,
                    ).message_spec() == old(self).manager().task_at(idv0).message_spec() by {
                let k2 = choose|k2: int|
                    0 <= k2 < removed@.len() && (#[trigger] removed@[k2]).0.0 == idv0.0;
                assert(removed@[k2].1 == old(self).manager().task_at(removed@[k2].0));
                assert(old(self).manager().task_at(removed@[k2].0) == old(
                    self,
                ).manager().task_at(idv0));
            }
        }
        Ok(())
    }
}

/// Whether the error is the one that triggers ejection and retry.
fn matches_invalid(e: &FrostError) -> (r: bool)
    ensures
        r <==> *e == FrostError::InvalidSignatureShare,
{
    match e {
        FrostError::InvalidSignatureShare => true,
        _ => false,
    }
}

} // verus!
