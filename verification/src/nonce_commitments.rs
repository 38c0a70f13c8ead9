//! The epoch's pool of pre-committed nonce pairs.
//!
//! Before signing, every member publishes a stream of (hiding, binding)
//! commitment pairs. Signing consumes one pair per member per task, all
//! members at the same stream index, which only ever moves forward — no
//! pair is handed out twice.

use vstd::prelude::*;
use crate::curve::{el_clone, el_eq, el_identity, point_log};
use crate::frost_error::FrostError;
use crate::ids::NodeID;
use crate::signer_group::FrostSignerGroup;

verus! {

/// How many members both stand in the signer group and still hold an
/// unused pair at the given stream index, among the first `i` streams.
pub open spec fn available_prefix(
    streams: Seq<(NodeID, Vec<(k256::ProjectivePoint, k256::ProjectivePoint)>)>,
    group: crate::signer_group::FrostSignerGroup,
    idx: int,
    i: int,
) -> int
    decreases i,
{
    if i <= 0 {
        0
    } else {
        available_prefix(streams, group, idx, i - 1) + if group.contains_spec(streams[i - 1].0)
            && idx < streams[i - 1].1@.len() {
            1int
        } else {
            0int
        }
    }
}

pub struct EpochNonceCommitments {
    commitments: Vec<(NodeID, Vec<(k256::ProjectivePoint, k256::ProjectivePoint)>)>,
    next_unused_index: usize,
}

impl EpochNonceCommitments {
    pub closed spec fn streams(&self) -> Seq<
        (NodeID, Vec<(k256::ProjectivePoint, k256::ProjectivePoint)>),
    > {
        self.commitments@
    }

    pub closed spec fn next_idx(&self) -> int {
        self.next_unused_index as int
    }

    pub open spec fn has_node(&self, n: NodeID) -> bool {
        exists|i: int| 0 <= i < self.streams().len() && (#[trigger] self.streams()[i]).0 == n
    }

    pub open spec fn node_index(&self, n: NodeID) -> int {
        choose|i: int| 0 <= i < self.streams().len() && (#[trigger] self.streams()[i]).0 == n
    }

    /// The member's pre-committed pairs.
    pub open spec fn stream_of(&self, n: NodeID) -> Seq<
        (k256::ProjectivePoint, k256::ProjectivePoint),
    > {
        self.streams()[self.node_index(n)].1@
    }

    pub open spec fn well_formed(&self) -> bool {
        &&& forall|i: int, j: int|
            0 <= i < j < self.streams().len() ==> self.streams()[i].0 != self.streams()[j].0
        &&& forall|i: int, m: int|
            0 <= i < self.streams().len() && 0 <= m < self.streams()[i].1@.len() ==> point_log(
                (#[trigger] self.streams()[i].1@[m]).0,
            ) != 0 && point_log(self.streams()[i].1@[m].1) != 0
    }

    pub fn next_index_value(&self) -> (r: usize)
        ensures
            r == self.next_idx(),
    {
        self.next_unused_index
    }

    pub fn new() -> (r: EpochNonceCommitments)
        ensures
            r.well_formed(),
            r.streams().len() == 0,
            r.next_idx() == 0,
    {
        EpochNonceCommitments { commitments: Vec::new(), next_unused_index: 0 }
    }

    /// Appends a member's fresh commitment pairs. A pair holding the
    /// identity is refused outright; once the epoch has started
    /// (`accept_new_node` false), only already-known, still-valid members
    /// may top up their streams.
    pub fn insert_commitments(
        &mut self,
        node_id: NodeID,
        signer_group: &FrostSignerGroup,
        nonce_commitments: Vec<(k256::ProjectivePoint, k256::ProjectivePoint)>,
        accept_new_node: bool,
    ) -> (r: Result<(), FrostError>)
        requires
            old(self).well_formed(),
        ensures
            final(self).well_formed(),
            r == Result::<(), FrostError>::Err(FrostError::IdentityNonceCommitment) <==> exists|
                m: int,
            |
                0 <= m < nonce_commitments@.len() && (point_log(
                    (#[trigger] nonce_commitments@[m]).0,
                ) == 0 || point_log(nonce_commitments@[m].1) == 0),
            !(exists|m: int|
                0 <= m < nonce_commitments@.len() && (point_log(
                    (#[trigger] nonce_commitments@[m]).0,
                ) == 0 || point_log(nonce_commitments@[m].1) == 0)) ==> {
                &&& r == Result::<(), FrostError>::Err(FrostError::TooLatePreCommit)
                    <==> !accept_new_node && !old(self).has_node(node_id)
                &&& r == Result::<(), FrostError>::Err(FrostError::EjectedNode)
                    <==> !accept_new_node && old(self).has_node(node_id)
                    && !signer_group.contains_spec(node_id)
            },
            r is Err ==> *final(self) == *old(self),
            r is Ok <==> !(exists|m: int|
                0 <= m < nonce_commitments@.len() && (point_log(
                    (#[trigger] nonce_commitments@[m]).0,
                ) == 0 || point_log(nonce_commitments@[m].1) == 0)) && (accept_new_node || (old(
                self,
            ).has_node(node_id) && signer_group.contains_spec(node_id))),
            r is Ok ==> {
                &&& final(self).has_node(node_id)
                &&& final(self).stream_of(node_id) == if old(self).has_node(node_id) {
                    old(self).stream_of(node_id) + nonce_commitments@
                } else {
                    nonce_commitments@
                }
            },
            final(self).next_idx() == old(self).next_idx(),
            forall|n: NodeID|
                n != node_id ==> (#[trigger] final(self).has_node(n)) == old(self).has_node(n),
    {
        // refuse identity commitments
        let identity = el_identity();
        let mut m: usize = 0;
        while m < nonce_commitments.len()
            invariant
                0 <= m <= nonce_commitments@.len(),
                *self == *old(self),
                old(self).well_formed(),
                point_log(identity) == 0,
                forall|t: int|
                    0 <= t < m ==> point_log((#[trigger] nonce_commitments@[t]).0) != 0
                        && point_log(nonce_commitments@[t].1) != 0,
            decreases nonce_commitments@.len() - m,
        {
            if el_eq(&nonce_commitments[m].0, &identity) || el_eq(&nonce_commitments[m].1, &identity) {
                proof {
                    assert(point_log((#[trigger] nonce_commitments@[m as int]).0) == 0
                        || point_log(nonce_commitments@[m as int].1) == 0);
                }
                return Err(FrostError::IdentityNonceCommitment);
            }
            m = m + 1;
        }

        // locate the member's stream
        let mut found: Option<usize> = None;
        let mut i: usize = 0;
        while i < self.commitments.len()
            invariant
                0 <= i <= self.streams().len(),
                *self == *old(self),
                old(self).well_formed(),
                forall|t: int|
                    0 <= t < nonce_commitments@.len() ==> point_log(
                        (#[trigger] nonce_commitments@[t]).0,
                    ) != 0 && point_log(nonce_commitments@[t].1) != 0,
                found is None ==> forall|k: int|
                    0 <= k < i ==> (#[trigger] self.streams()[k]).0 != node_id,
                found is Some ==> found->0 < self.streams().len()
                    && (#[trigger] self.streams()[found->0 as int]).0 == node_id,
            decreases self.streams().len() - i,
        {
            if self.commitments[i].0.0 == node_id.0 {
                found = Some(i);
                proof {
                    assert((#[trigger] self.streams()[i as int]).0 == node_id);
                }
                i = self.commitments.len();
            } else {
                i = i + 1;
            }
        }

        if !accept_new_node {
            if found.is_none() {
                return Err(FrostError::TooLatePreCommit);
            }
            if !signer_group.contains(&node_id) {
                return Err(FrostError::EjectedNode);
            }
        }

        let ghost old_streams = self.commitments@;
        match found {
            Some(idx) => {
                let (nid, mut stream) = self.commitments.remove(idx);
                let ghost pre_stream = stream@;
                let mut t: usize = 0;
                while t < nonce_commitments.len()
                    invariant
                        0 <= t <= nonce_commitments@.len(),
                        forall|x: int|
                            0 <= x < nonce_commitments@.len() ==> point_log(
                                (#[trigger] nonce_commitments@[x]).0,
                            ) != 0 && point_log(nonce_commitments@[x].1) != 0,
                        stream@ == pre_stream + nonce_commitments@.take(t as int),
                    decreases nonce_commitments@.len() - t,
                {
                    let pair = nonce_commitments[t];
                    stream.push(pair);
                    proof {
                        assert(stream@ =~= pre_stream + nonce_commitments@.take(t + 1));
                    }
                    t = t + 1;
                }
                proof {
                    assert(nonce_commitments@.take(nonce_commitments@.len() as int)
                        =~= nonce_commitments@);
                }
                self.commitments.insert(idx, (nid, stream));
                proof {
                    assert(self.commitments@.len() == old_streams.len());
                    assert forall|x: int|
                        0 <= x < old_streams.len() && x != idx implies #[trigger] self.commitments@[x]
                        == old_streams[x] by {
                        if x > idx {
                            assert(self.commitments@[x] == old_streams.remove(idx as int)[x - 1]);
                            assert(old_streams.remove(idx as int)[x - 1] == old_streams[x]);
                        }
                    }
                    assert(self.commitments@[idx as int].0 == node_id);
                    lemma_stream_key_unique(self, node_id);
                    lemma_stream_key_unique(old(self), node_id);
                    assert(self.node_index(node_id) == idx);
                    assert(old(self).node_index(node_id) == idx);
                    assert(self.stream_of(node_id) == old(self).stream_of(node_id)
                        + nonce_commitments@);
                    assert forall|a: int, b: int|
                        0 <= a < b < self.streams().len() implies self.streams()[a].0
                        != self.streams()[b].0 by {
                        assert(old_streams[a].0 != old_streams[b].0);
                    }
                    assert forall|n: NodeID| n != node_id implies (#[trigger] self.has_node(n))
                        == old(self).has_node(n) by {
                        if self.has_node(n) {
                            let k = choose|k: int|
                                0 <= k < self.streams().len() && (#[trigger] self.streams()[k]).0
                                    == n;
                            assert(old_streams[k].0 == n);
                        }
                        if old(self).has_node(n) {
                            let k = choose|k: int|
                                0 <= k < old_streams.len() && (#[trigger] old_streams[k]).0 == n;
                            assert(self.streams()[k].0 == n);
                        }
                    }
                }
            },
            None => {
                let mut stream: Vec<(k256::ProjectivePoint, k256::ProjectivePoint)> = Vec::new();
                let mut t: usize = 0;
                while t < nonce_commitments.len()
                    invariant
                        0 <= t <= nonce_commitments@.len(),
                        forall|x: int|
                            0 <= x < nonce_commitments@.len() ==> point_log(
                                (#[trigger] nonce_commitments@[x]).0,
                            ) != 0 && point_log(nonce_commitments@[x].1) != 0,
                        stream@ == nonce_commitments@.take(t as int),
                    decreases nonce_commitments@.len() - t,
                {
                    let pair = nonce_commitments[t];
                    stream.push(pair);
                    proof {
                        assert(stream@ =~= nonce_commitments@.take(t + 1));
                    }
                    t = t + 1;
                }
                proof {
                    assert(nonce_commitments@.take(nonce_commitments@.len() as int)
                        =~= nonce_commitments@);
                }
                self.commitments.push((node_id, stream));
                proof {
                    let n2 = old_streams.len() as int;
                    assert(self.streams()[n2].0 == node_id);
                    lemma_stream_key_unique_push(self, old(self), node_id);
                    assert(self.node_index(node_id) == n2);
                    assert(self.stream_of(node_id) == nonce_commitments@);
                    assert forall|a: int, b: int|
                        0 <= a < b < self.streams().len() implies self.streams()[a].0
                        != self.streams()[b].0 by {
                        if b < n2 {
                            assert(old_streams[a].0 != old_streams[b].0);
                        } else {
                            assert((#[trigger] old_streams[a]).0 != node_id);
                        }
                    }
                    assert forall|n: NodeID| n != node_id implies (#[trigger] self.has_node(n))
                        == old(self).has_node(n) by {
                        if self.has_node(n) {
                            let k = choose|k: int|
                                0 <= k < self.streams().len() && (#[trigger] self.streams()[k]).0
                                    == n;
                            if k == n2 {
                                assert(self.streams()[k].0 == node_id);
                            }
                            assert(old_streams[k].0 == n);
                        }
                        if old(self).has_node(n) {
                            let k = choose|k: int|
                                0 <= k < old_streams.len() && (#[trigger] old_streams[k]).0 == n;
                            assert(self.streams()[k].0 == n);
                        }
                    }
                }
            },
        }
        Ok(())
    }

    /// Hands out one commitment pair per currently-valid member, all at
    /// the next unused stream index, and moves the index forward — the
    /// same (member, index) pair is never handed out twice. Members whose
    /// stream is exhausted are dropped from the signer group; fewer than
    /// two available pairs, or a group left short of the threshold, fail
    /// the pull.
    pub fn pull_next_commitments(&mut self, signer_group: &mut FrostSignerGroup) -> (r: Result<
        (usize, Vec<(NodeID, (k256::ProjectivePoint, k256::ProjectivePoint))>),
        FrostError,
    >)
        requires
            old(self).well_formed(),
            old(signer_group).well_formed(),
            old(self).next_idx() < usize::MAX,
        ensures
            final(self).well_formed(),
            final(signer_group).well_formed(),
            final(self).streams() == old(self).streams(),
            r is Ok ==> final(self).next_idx() == old(self).next_idx() + 1,
            r is Err ==> final(self).next_idx() == old(self).next_idx(),
            r == Result::<
                (usize, Vec<(NodeID, (k256::ProjectivePoint, k256::ProjectivePoint))>),
                FrostError,
            >::Err(FrostError::NotEnoughUnusedPreCommit) <==> available_prefix(
                old(self).streams(),
                *old(signer_group),
                old(self).next_idx(),
                old(self).streams().len() as int,
            ) <= 1,
            r is Err ==> r == Result::<
                (usize, Vec<(NodeID, (k256::ProjectivePoint, k256::ProjectivePoint))>),
                FrostError,
            >::Err(FrostError::NotEnoughUnusedPreCommit) || r == Result::<
                (usize, Vec<(NodeID, (k256::ProjectivePoint, k256::ProjectivePoint))>),
                FrostError,
            >::Err(FrostError::NotEnoughSigningShares),
            // the early shortage leaves the group untouched
            r == Result::<
                (usize, Vec<(NodeID, (k256::ProjectivePoint, k256::ProjectivePoint))>),
                FrostError,
            >::Err(FrostError::NotEnoughUnusedPreCommit) ==> *final(signer_group) == *old(
                signer_group,
            ),
            // the member set never grows
            forall|n: NodeID|
                #[trigger] final(signer_group).contains_spec(n) ==> old(
                    signer_group,
                ).contains_spec(n),
            // on success, exactly the exhausted members leave the group
            r is Ok ==> forall|n: NodeID|
                #[trigger] final(signer_group).contains_spec(n) == (old(
                    signer_group,
                ).contains_spec(n) && !(old(self).has_node(n) && old(self).stream_of(n).len()
                    <= old(self).next_idx())),
            // success is owed when at least two pairs are available, no
            // member is exhausted, and no cached shortfall stands
            (available_prefix(
                old(self).streams(),
                *old(signer_group),
                old(self).next_idx(),
                old(self).streams().len() as int,
            ) >= 2 && (forall|s: int|
                0 <= s < old(self).streams().len() && old(signer_group).contains_spec(
                    (#[trigger] old(self).streams()[s]).0,
                ) ==> old(self).next_idx() < old(self).streams()[s].1@.len()) && (old(
                signer_group,
            ).cached() matches Some(c) ==> c >= old(signer_group).ctx().num_signing_shares))
                ==> r is Ok,
            r matches Ok((idx, pulled)) ==> {
                &&& idx == old(self).next_idx()
                &&& forall|k: int|
                    0 <= k < pulled@.len() ==> old(signer_group).contains_spec(
                        (#[trigger] pulled@[k]).0,
                    ) && old(self).has_node(pulled@[k].0) && idx < old(self).stream_of(
                        pulled@[k].0,
                    ).len() && point_log(pulled@[k].1.0) == point_log(
                        old(self).stream_of(pulled@[k].0)[idx as int].0,
                    ) && point_log(pulled@[k].1.1) == point_log(
                        old(self).stream_of(pulled@[k].0)[idx as int].1,
                    )
                &&& pulled@.len() >= 2
            },
    {
        let mut pulled: Vec<(NodeID, (k256::ProjectivePoint, k256::ProjectivePoint))> = Vec::new();
        let mut to_remove: Vec<NodeID> = Vec::new();
        let idx = self.next_unused_index;
        let mut i: usize = 0;
        while i < self.commitments.len()
            invariant
                0 <= i <= self.streams().len(),
                *self == *old(self),
                *signer_group == *old(signer_group),
                old(self).well_formed(),
                idx == old(self).next_idx(),
                pulled@.len() == available_prefix(
                    old(self).streams(),
                    *old(signer_group),
                    idx as int,
                    i as int,
                ),
                forall|n: NodeID|
                    #[trigger] to_remove@.contains(n) <==> (old(signer_group).contains_spec(n)
                        && exists|s: int|
                        0 <= s < i && (#[trigger] old(self).streams()[s]).0 == n && old(
                            self,
                        ).streams()[s].1@.len() <= idx),
                forall|k: int|
                    0 <= k < pulled@.len() ==> old(signer_group).contains_spec(
                        (#[trigger] pulled@[k]).0,
                    ) && old(self).has_node(pulled@[k].0) && idx < old(self).stream_of(
                        pulled@[k].0,
                    ).len() && point_log(pulled@[k].1.0) == point_log(
                        old(self).stream_of(pulled@[k].0)[idx as int].0,
                    ) && point_log(pulled@[k].1.1) == point_log(
                        old(self).stream_of(pulled@[k].0)[idx as int].1,
                    ),
            decreases self.streams().len() - i,
        {
            let node = self.commitments[i].0;
            if signer_group.contains(&node) {
                if idx < self.commitments[i].1.len() {
                    proof {
                        assert((#[trigger] self.streams()[i as int]).0 == node);
                        lemma_stream_key_unique(self, node);
                        assert(self.node_index(node) == i);
                    }
                    let pair = (
                        el_clone(&self.commitments[i].1[idx].0),
                        el_clone(&self.commitments[i].1[idx].1),
                    );
                    pulled.push((node, pair));
                } else {
                    let ghost old_remove = to_remove@;
                    to_remove.push(node);
                    proof {
                        assert((#[trigger] self.streams()[i as int]).0 == node);
                        assert(self.streams()[i as int].1@.len() <= idx);
                        assert forall|n: NodeID|
                            #[trigger] to_remove@.contains(n) <==> (old(
                                signer_group,
                            ).contains_spec(n) && exists|s: int|
                                0 <= s < i + 1 && (#[trigger] old(self).streams()[s]).0 == n
                                    && old(self).streams()[s].1@.len() <= idx) by {
                            if to_remove@.contains(n) {
                                let w = choose|w: int|
                                    0 <= w < to_remove@.len() && to_remove@[w] == n;
                                if w < old_remove.len() {
                                    assert(old_remove[w] == n);
                                    assert(old_remove.contains(n));
                                    let s0 = choose|s: int|
                                        0 <= s < i && (#[trigger] old(self).streams()[s]).0 == n
                                            && old(self).streams()[s].1@.len() <= idx;
                                    assert(0 <= s0 < i + 1 && old(self).streams()[s0].0 == n
                                        && old(self).streams()[s0].1@.len() <= idx);
                                } else {
                                    assert(to_remove@[w] == node);
                                    assert(old(self).streams()[i as int].0 == n);
                                }
                            }
                            if old(signer_group).contains_spec(n) && exists|s: int|
                                0 <= s < i + 1 && (#[trigger] old(self).streams()[s]).0 == n
                                    && old(self).streams()[s].1@.len() <= idx {
                                let s0 = choose|s: int|
                                    0 <= s < i + 1 && (#[trigger] old(self).streams()[s]).0 == n
                                        && old(self).streams()[s].1@.len() <= idx;
                                if s0 < i {
                                    assert(old_remove.contains(n));
                                    let w = choose|w: int|
                                        0 <= w < old_remove.len() && old_remove[w] == n;
                                    assert(to_remove@[w] == n);
                                } else {
                                    assert(n == node);
                                    assert(to_remove@[to_remove@.len() - 1] == n);
                                }
                                assert(to_remove@.contains(n));
                            }
                        }
                    }
                }
            } else {
                proof {
                    assert forall|n: NodeID|
                        #[trigger] to_remove@.contains(n) <==> (old(signer_group).contains_spec(n)
                            && exists|s: int|
                            0 <= s < i + 1 && (#[trigger] old(self).streams()[s]).0 == n && old(
                                self,
                            ).streams()[s].1@.len() <= idx) by {
                        if old(signer_group).contains_spec(n) && exists|s: int|
                            0 <= s < i + 1 && (#[trigger] old(self).streams()[s]).0 == n && old(
                                self,
                            ).streams()[s].1@.len() <= idx {
                            let s0 = choose|s: int|
                                0 <= s < i + 1 && (#[trigger] old(self).streams()[s]).0 == n
                                    && old(self).streams()[s].1@.len() <= idx;
                            if s0 == i as int {
                                assert(old(self).streams()[i as int].0 == node);
                                assert(n == node);
                                assert(false);
                            }
                        }
                    }
                }
            }
            i = i + 1;
        }

        if pulled.len() <= 1 {
            return Err(FrostError::NotEnoughUnusedPreCommit);
        }

        match signer_group.remove_nodes(&to_remove) {
            Ok(_) => {},
            Err(e) => {
                return Err(e);
            },
        }
        match signer_group.check_enough_shares() {
            Ok(_) => {},
            Err(e) => {
                return Err(e);
            },
        }
        self.next_unused_index = idx + 1;
        Ok((idx, pulled))
    }
}

/// With unique member keys, any index holding the member is the one the
/// stream lookup denotes.
proof fn lemma_stream_key_unique(p: &EpochNonceCommitments, n: NodeID)
    requires
        forall|i: int, j: int|
            0 <= i < j < p.streams().len() ==> p.streams()[i].0 != p.streams()[j].0,
        p.has_node(n),
    ensures
        forall|i: int|
            0 <= i < p.streams().len() && (#[trigger] p.streams()[i]).0 == n ==> i == p.node_index(
                n,
            ),
{
    let si = p.node_index(n);
    assert(0 <= si < p.streams().len() && p.streams()[si].0 == n);
    assert forall|i: int|
        0 <= i < p.streams().len() && (#[trigger] p.streams()[i]).0 == n implies i == si by {
        if i < si {
            assert(p.streams()[i].0 != p.streams()[si].0);
        } else if si < i {
            assert(p.streams()[si].0 != p.streams()[i].0);
        }
    }
}

/// After pushing a new member at the end, the lookup denotes that last
/// entry.
proof fn lemma_stream_key_unique_push(p: &EpochNonceCommitments, old_p: &EpochNonceCommitments, n: NodeID)
    requires
        p.streams().len() == old_p.streams().len() + 1,
        forall|i: int| 0 <= i < old_p.streams().len() ==> p.streams()[i] == old_p.streams()[i],
        forall|i: int| 0 <= i < old_p.streams().len() ==> (#[trigger] old_p.streams()[i]).0 != n,
        p.streams()[old_p.streams().len() as int].0 == n,
    ensures
        p.node_index(n) == old_p.streams().len(),
{
    let last = old_p.streams().len() as int;
    assert(p.has_node(n));
    let si = p.node_index(n);
    assert(0 <= si < p.streams().len() && p.streams()[si].0 == n);
    if si < last {
        assert(old_p.streams()[si].0 != n);
        assert(false);
    }
}

} // verus!
