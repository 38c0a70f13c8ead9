//! The dealer's side of a key generation: one committed polynomial,
//! one share per vote, bundled into per-member messages, and a tally of
//! acknowledgements.

use vstd::prelude::*;
use crate::curve::{scalar_clone, scalar_val};
use crate::ids::{vote_total, NodeID, VoteGroup, VoteID};
use crate::poly::{
    commitment_hash_of, generate_polynomial_commitments, poly_eval, AffinePolynomialCommitment,
    H256,
};

verus! {

/// The acknowledgement a member returns for its share message. The ack
/// round's signature scheme is not part of this core, so the payload is
/// empty.
pub type ShareSignature = ();

/// What one member receives from a dealer: the commitment and the
/// shares of the member's votes, in vote order.
pub struct RawShareMessage {
    pub commitment: AffinePolynomialCommitment,
    pub shares: Vec<k256::Scalar>,
}

/// Every vote of every member, in member order.
pub open spec fn flat_votes(entries: Seq<(NodeID, Vec<VoteID>)>) -> Seq<VoteID>
    decreases entries.len(),
{
    if entries.len() == 0 {
        Seq::empty()
    } else {
        flat_votes(entries.drop_last()) + entries.last().1@
    }
}

pub struct ShareSender {
    vote_groups: VoteGroup,
    commitment: AffinePolynomialCommitment,
    commitment_hash: H256,
    shares: Vec<(VoteID, k256::Scalar, k256::ProjectivePoint)>,
    signature: Vec<NodeID>,
}

impl ShareSender {
    pub closed spec fn groups(&self) -> VoteGroup {
        self.vote_groups
    }

    /// The committed polynomial, as its coefficients' logarithms.
    pub closed spec fn commitment_logs(&self) -> Seq<nat> {
        self.commitment.logs()
    }

    pub closed spec fn hash_bytes(&self) -> Seq<u8> {
        self.commitment_hash@
    }

    pub closed spec fn shares_seq(&self) -> Seq<(VoteID, k256::Scalar, k256::ProjectivePoint)> {
        self.shares@
    }

    /// Whether a member has acknowledged its share message.
    pub open spec fn acked(&self, n: NodeID) -> bool {
        exists|i: int| 0 <= i < self.acked_seq().len() && (#[trigger] self.acked_seq()[i]) == n
    }

    pub closed spec fn acked_seq(&self) -> Seq<NodeID> {
        self.signature@
    }

    pub open spec fn well_formed(&self) -> bool {
        &&& self.groups().well_formed()
        &&& self.shares_seq().len() == flat_votes(self.groups().entries_seq()).len()
        &&& forall|k: int|
            0 <= k < self.shares_seq().len() ==> (#[trigger] self.shares_seq()[k]).0 == flat_votes(
                self.groups().entries_seq(),
            )[k]
        &&& forall|k: int|
            0 <= k < self.shares_seq().len() ==> scalar_val((#[trigger] self.shares_seq()[k]).1)
                == poly_eval(self.commitment_logs(), self.shares_seq()[k].0.0 as nat)
                && crate::curve::point_log(self.shares_seq()[k].2) == poly_eval(
                self.commitment_logs(),
                self.shares_seq()[k].0.0 as nat,
            )
        &&& forall|i: int, j: int|
            0 <= i < j < self.acked_seq().len() ==> self.acked_seq()[i] != self.acked_seq()[j]
        &&& self.hash_bytes() == commitment_hash_of(self.commitment_logs())
    }

    /// Deals: samples a polynomial of the given degree (its constant
    /// term fixed by `shared_input` when resharing), commits to it, and
    /// computes each vote's share.
    pub fn generate(
        degree: usize,
        vote_groups: VoteGroup,
        shared_input: Option<&k256::Scalar>,
    ) -> (r: ShareSender)
        requires
            degree < usize::MAX,
            vote_groups.well_formed(),
        ensures
            r.well_formed(),
            r.groups() == vote_groups,
            r.commitment_logs().len() == degree + 1,
            (match shared_input {
                Some(s) => r.commitment_logs()[0] == scalar_val(*s),
                None => true,
            }),
            r.acked_seq().len() == 0,
    {
        let ghost entries = vote_groups.entries_seq();
        let mut all_vote_id: Vec<VoteID> = Vec::new();
        let mut g: usize = 0;
        proof {
            assert(flat_votes(entries.take(0)) =~= Seq::<VoteID>::empty());
            assert(all_vote_id@ =~= flat_votes(entries.take(0)));
        }
        while g < vote_groups.len()
            invariant
                0 <= g <= entries.len(),
                entries == vote_groups.entries_seq(),
                vote_groups.well_formed(),
                all_vote_id@ == flat_votes(entries.take(g as int)),
            decreases entries.len() - g,
        {
            let votes = vote_groups.votes_at(g);
            let mut m: usize = 0;
            let ghost pre = all_vote_id@;
            while m < votes.len()
                invariant
                    0 <= m <= votes@.len(),
                    votes@ == entries[g as int].1@,
                    g < entries.len(),
                    all_vote_id@ == pre + votes@.take(m as int),
                decreases votes@.len() - m,
            {
                all_vote_id.push(votes[m]);
                proof {
                    assert(all_vote_id@ =~= pre + votes@.take(m + 1));
                }
                m = m + 1;
            }
            proof {
                assert(votes@.take(votes@.len() as int) =~= votes@);
                assert(entries.take(g + 1).drop_last() =~= entries.take(g as int));
                assert(entries.take(g + 1).last() == entries[g as int]);
                assert(all_vote_id@ =~= flat_votes(entries.take(g + 1)));
            }
            g = g + 1;
        }
        proof {
            assert(entries.take(entries.len() as int) =~= entries);
        }

        let (pc, shares) = generate_polynomial_commitments(degree, &all_vote_id, shared_input);
        let commitment = pc.to_affine();
        let commitment_hash = commitment.hash();
        let r = ShareSender {
            vote_groups,
            commitment,
            commitment_hash,
            shares,
            signature: Vec::new(),
        };
        r
    }

    /// One message per member: the commitment and the shares of the
    /// member's votes, in vote order.
    pub fn make_share_messages(&self) -> (r: Vec<(NodeID, RawShareMessage)>)
        requires
            self.well_formed(),
        ensures
            r@.len() == self.groups().entries_seq().len(),
            forall|k: int|
                0 <= k < r@.len() ==> (#[trigger] r@[k]).0 == self.groups().entries_seq()[k].0
                    && r@[k].1.commitment.logs() == self.commitment_logs()
                    && r@[k].1.shares@.len() == self.groups().entries_seq()[k].1@.len(),
            forall|k: int, m: int|
                0 <= k < r@.len() && 0 <= m < r@[k].1.shares@.len() ==> scalar_val(
                    (#[trigger] r@[k]).1.shares@[m],
                ) == poly_eval(
                    self.commitment_logs(),
                    (#[trigger] self.groups().entries_seq()[k].1@[m]).0 as nat,
                ),
    {
        let ghost entries = self.groups().entries_seq();
        let total = self.shares.len();
        let mut out: Vec<(NodeID, RawShareMessage)> = Vec::new();
        let mut offset: usize = 0;
        let mut g: usize = 0;
        proof {
            assert(flat_votes(entries.take(0)) =~= Seq::<VoteID>::empty());
        }
        while g < self.vote_groups.len()
            invariant
                0 <= g <= entries.len(),
                self.well_formed(),
                entries == self.groups().entries_seq(),
                total == self.shares_seq().len(),
                offset == flat_votes(entries.take(g as int)).len(),
                offset <= total,
                out@.len() == g,
                forall|k: int|
                    0 <= k < g ==> (#[trigger] out@[k]).0 == entries[k].0
                        && out@[k].1.commitment.logs() == self.commitment_logs()
                        && out@[k].1.shares@.len() == entries[k].1@.len(),
                forall|k: int, m: int|
                    0 <= k < g && 0 <= m < out@[k].1.shares@.len() ==> scalar_val(
                        (#[trigger] out@[k]).1.shares@[m],
                    ) == poly_eval(
                        self.commitment_logs(),
                        (#[trigger] entries[k].1@[m]).0 as nat,
                    ),
            decreases entries.len() - g,
        {
            let node = self.vote_groups.node_at(g);
            let votes = self.vote_groups.votes_at(g);
            proof {
                lemma_flat_take_step(entries, g as int);
                lemma_flat_take_bound(entries, g + 1);
            }
            let mut shares: Vec<k256::Scalar> = Vec::new();
            let mut m: usize = 0;
            while m < votes.len()
                invariant
                    0 <= m <= votes@.len(),
                    self.well_formed(),
                    entries == self.groups().entries_seq(),
                    g < entries.len(),
                    votes@ == entries[g as int].1@,
                    offset == flat_votes(entries.take(g as int)).len(),
                    total == self.shares_seq().len(),
                    offset + votes@.len() <= total,
                    forall|t: int|
                        0 <= t < votes@.len() ==> flat_votes(entries)[offset + t] == votes@[t],
                    shares@.len() == m,
                    forall|t: int|
                        0 <= t < m ==> scalar_val(#[trigger] shares@[t]) == poly_eval(
                            self.commitment_logs(),
                            (#[trigger] votes@[t]).0 as nat,
                        ),
                decreases votes@.len() - m,
            {
                let idx = offset + m;
                shares.push(scalar_clone(&self.shares[idx].1));
                proof {
                    assert(self.shares_seq()[idx as int].0 == flat_votes(entries)[idx as int]);
                    assert(flat_votes(entries)[offset + m] == votes@[m as int]);
                }
                m = m + 1;
            }
            out.push((node, RawShareMessage { commitment: self.commitment.clone(), shares }));
            offset = offset + votes.len();
            g = g + 1;
        }
        out
    }

    /// Records a member's acknowledgement; one from outside the
    /// committee is ignored, a repeated one changes nothing.
    pub fn receive_share_ack(&mut self, node_id: NodeID, _signature: ShareSignature)
        requires
            old(self).well_formed(),
        ensures
            final(self).well_formed(),
            final(self).acked(node_id) == (old(self).acked(node_id)
                || old(self).groups().votes_of(node_id).len() > 0),
            forall|n: NodeID|
                n != node_id ==> (#[trigger] final(self).acked(n)) == old(self).acked(n),
            final(self).groups() == old(self).groups(),
            final(self).commitment_logs() == old(self).commitment_logs(),
    {
        if self.vote_groups.node_votes(node_id) == 0 {
            return ;
        }
        let ghost old_acked = self.signature@;
        let mut i: usize = 0;
        while i < self.signature.len()
            invariant
                0 <= i <= old_acked.len(),
                old_acked == self.signature@,
                *self == *old(self),
                old(self).well_formed(),
                old(self).groups().votes_of(node_id).len() > 0,
                forall|k: int| 0 <= k < i ==> (#[trigger] old_acked[k]) != node_id,
            decreases old_acked.len() - i,
        {
            if self.signature[i].0 == node_id.0 {
                proof {
                    assert((#[trigger] self.acked_seq()[i as int]) == node_id);
                    assert(self.acked(node_id));
                }
                return ;
            }
            i = i + 1;
        }
        self.signature.push(node_id);
        proof {
            let n = old_acked.len() as int;
            assert((#[trigger] self.acked_seq()[n]) == node_id);
            assert(self.acked(node_id));
            assert forall|a: int, b: int|
                0 <= a < b < self.acked_seq().len() implies self.acked_seq()[a]
                != self.acked_seq()[b] by {
                if b < n {
                    assert(old(self).acked_seq()[a] != old(self).acked_seq()[b]);
                } else {
                    assert((#[trigger] old_acked[a]) != node_id);
                }
            }
            assert forall|n2: NodeID| n2 != node_id implies (#[trigger] self.acked(n2)) == old(
                self,
            ).acked(n2) by {
                if self.acked(n2) {
                    let k = choose|k: int|
                        0 <= k < self.acked_seq().len() && (#[trigger] self.acked_seq()[k]) == n2;
                    if k == n {
                        assert(self.acked_seq()[k] == node_id);
                    }
                    assert((#[trigger] old(self).acked_seq()[k]) == n2);
                    assert(old(self).acked(n2));
                }
                if old(self).acked(n2) {
                    let k = choose|k: int|
                        0 <= k < old(self).acked_seq().len() && (#[trigger] old(
                            self,
                        ).acked_seq()[k]) == n2;
                    assert((#[trigger] self.acked_seq()[k]) == n2);
                    assert(self.acked(n2));
                }
            }
        }
    }

    /// How many votes the acknowledging members hold in all.
    pub fn total_ack_votes(&self) -> (r: usize)
        requires
            self.well_formed(),
        ensures
            r == acked_votes(self.groups().entries_seq(), self),
    {
        let ghost entries = self.groups().entries_seq();
        let tv = self.vote_groups.total_votes();
        let mut sum: usize = 0;
        let mut g: usize = 0;
        proof {
            assert(entries.take(0) =~= Seq::<(NodeID, Vec<VoteID>)>::empty());
        }
        while g < self.vote_groups.len()
            invariant
                0 <= g <= entries.len(),
                self.well_formed(),
                entries == self.groups().entries_seq(),
                tv == vote_total(entries),
                sum == acked_votes_prefix(entries, self, g as int),
                sum <= vote_total(entries.take(g as int)),
            decreases entries.len() - g,
        {
            proof {
                crate::ids::lemma_vote_total_take_step(entries, g as int);
                crate::ids::lemma_vote_total_take_bound(entries, g + 1);
            }
            let node = self.vote_groups.node_at(g);
            let mut is_acked: bool = false;
            let mut i: usize = 0;
            while i < self.signature.len()
                invariant
                    0 <= i <= self.acked_seq().len(),
                    self.well_formed(),
                    is_acked ==> self.acked(node),
                    !is_acked ==> forall|k: int|
                        0 <= k < i ==> (#[trigger] self.acked_seq()[k]) != node,
                decreases self.acked_seq().len() - i,
            {
                if self.signature[i].0 == node.0 {
                    is_acked = true;
                    proof {
                        assert((#[trigger] self.acked_seq()[i as int]) == node);
                    }
                }
                i = i + 1;
            }
            proof {
                if !is_acked && self.acked(node) {
                    let k = choose|k: int|
                        0 <= k < self.acked_seq().len() && (#[trigger] self.acked_seq()[k])
                            == node;
                }
            }
            if is_acked {
                let votes = self.vote_groups.votes_at(g);
                sum = sum + votes.len();
            }
            g = g + 1;
        }
        proof {
            assert(entries.take(entries.len() as int) =~= entries);
        }
        sum
    }
}

/// The vote total of the acknowledging members among the first `g`
/// entries.
pub open spec fn acked_votes_prefix(
    entries: Seq<(NodeID, Vec<VoteID>)>,
    s: &ShareSender,
    g: int,
) -> int
    decreases g,
{
    if g <= 0 {
        0
    } else {
        acked_votes_prefix(entries, s, g - 1) + if s.acked(entries[g - 1].0) {
            entries[g - 1].1@.len() as int
        } else {
            0
        }
    }
}

/// The vote total of the acknowledging members.
pub open spec fn acked_votes(entries: Seq<(NodeID, Vec<VoteID>)>, s: &ShareSender) -> int {
    acked_votes_prefix(entries, s, entries.len() as int)
}

/// One member's votes extend the flattened list by exactly its votes.
proof fn lemma_flat_take_step(entries: Seq<(NodeID, Vec<VoteID>)>, g: int)
    requires
        0 <= g < entries.len(),
    ensures
        flat_votes(entries.take(g + 1)).len() == flat_votes(entries.take(g)).len()
            + entries[g].1@.len(),
        forall|t: int|
            0 <= t < entries[g].1@.len() ==> flat_votes(entries)[flat_votes(
                entries.take(g),
            ).len() + t] == entries[g].1@[t],
    decreases entries.len() - g,
{
    assert(entries.take(g + 1).drop_last() =~= entries.take(g));
    assert(entries.take(g + 1).last() == entries[g]);
    lemma_flat_prefix_agrees(entries, g + 1);
}

/// The flattened prefix is a prefix of the whole flattening.
proof fn lemma_flat_prefix_agrees(entries: Seq<(NodeID, Vec<VoteID>)>, g: int)
    requires
        0 <= g <= entries.len(),
    ensures
        flat_votes(entries.take(g)).len() <= flat_votes(entries).len(),
        forall|t: int|
            0 <= t < flat_votes(entries.take(g)).len() ==> #[trigger] flat_votes(entries)[t]
                == flat_votes(entries.take(g))[t],
    decreases entries.len() - g,
{
    if g < entries.len() {
        assert(entries.take(g + 1).drop_last() =~= entries.take(g));
        assert(entries.take(g + 1).last() == entries[g]);
        lemma_flat_prefix_agrees(entries, g + 1);
        assert forall|t: int|
            0 <= t < flat_votes(entries.take(g)).len() implies #[trigger] flat_votes(entries)[t]
            == flat_votes(entries.take(g))[t] by {
            assert(flat_votes(entries.take(g + 1))[t] == flat_votes(entries.take(g))[t]);
        }
    } else {
        assert(entries.take(g) =~= entries);
    }
}

/// A flat prefix never outgrows the whole.
proof fn lemma_flat_take_bound(entries: Seq<(NodeID, Vec<VoteID>)>, g: int)
    requires
        0 <= g <= entries.len(),
    ensures
        flat_votes(entries.take(g)).len() <= flat_votes(entries).len(),
{
    lemma_flat_prefix_agrees(entries, g);
}

} // verus!
