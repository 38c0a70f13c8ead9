//! The share-holder's side of a handoff between epochs: collecting the
//! previous holders' row shares and recovering this holder's new column
//! shares by interpolation.

use vstd::prelude::*;
use crate::curve::{el_eq, el_mul_base, point_log, scalar_clone, scalar_val};
use crate::dpss::DpssError;
use crate::ids::VoteID;
use crate::interpolate::{interp_eval, interpolate_and_evaluate_share};
use crate::matrix::Matrix;

verus! {

/// A share-holder's standing state across epochs.
pub struct ShareManager {
    pub epoch: usize,
}

/// Collects, for one receiving share-holder, the row shares sent by the
/// previous epoch's holders, each checked against the element matrix.
pub struct HandoffManager {
    vote_id: Vec<VoteID>,
    received_shares: Vec<(VoteID, Vec<k256::Scalar>)>,
    row_votes: usize,
}

impl HandoffManager {
    /// The receiver's votes, one column share each.
    pub closed spec fn votes(&self) -> Seq<VoteID> {
        self.vote_id@
    }

    pub closed spec fn received(&self) -> Seq<(VoteID, Vec<k256::Scalar>)> {
        self.received_shares@
    }

    pub open spec fn has_sender(&self, v: VoteID) -> bool {
        exists|i: int| 0 <= i < self.received().len() && (#[trigger] self.received()[i]).0 == v
    }

    pub closed spec fn row_votes_spec(&self) -> int {
        self.row_votes as int
    }

    pub open spec fn well_formed(&self) -> bool {
        &&& forall|i: int, j: int|
            0 <= i < j < self.votes().len() ==> self.votes()[i] != self.votes()[j]
        &&& forall|i: int| 0 <= i < self.votes().len() ==> (#[trigger] self.votes()[i]).0 > 0
        &&& forall|i: int, j: int|
            0 <= i < j < self.received().len() ==> self.received()[i].0 != self.received()[j].0
        &&& forall|i: int|
            0 <= i < self.received().len() ==> (#[trigger] self.received()[i]).0.0 > 0
                && self.received()[i].1@.len() == self.votes().len()
    }

    /// A collector for the given receiver votes, needing `row_votes`
    /// senders before the handoff is complete.
    pub fn new(vote_id: Vec<VoteID>, row_votes: usize) -> (r: HandoffManager)
        requires
            forall|i: int, j: int| 0 <= i < j < vote_id@.len() ==> vote_id@[i] != vote_id@[j],
            forall|i: int| 0 <= i < vote_id@.len() ==> (#[trigger] vote_id@[i]).0 > 0,
        ensures
            r.well_formed(),
            r.votes() == vote_id@,
            r.received().len() == 0,
            r.row_votes_spec() == row_votes,
    {
        HandoffManager { vote_id, received_shares: Vec::new(), row_votes }
    }

    /// Accepts one previous holder's row of shares after checking every
    /// entry against the holder's row of the element matrix:
    /// `matrix[(sender, vote)] == share * G`. Returns whether enough
    /// rows have arrived.
    pub fn receive_share(
        &mut self,
        last_matrix: &Matrix,
        sender_id: VoteID,
        shares: Vec<k256::Scalar>,
    ) -> (r: Result<bool, DpssError>)
        requires
            old(self).well_formed(),
            last_matrix.well_formed(),
            sender_id.0 > 0,
            sender_id.0 < last_matrix.cols_spec(),
            forall|i: int|
                0 <= i < old(self).votes().len() ==> (#[trigger] old(self).votes()[i]).0
                    < last_matrix.rows_spec(),
        ensures
            final(self).well_formed(),
            r == Result::<bool, DpssError>::Err(DpssError::DuplicatedHandoffShare) <==> old(
                self,
            ).has_sender(sender_id),
            !old(self).has_sender(sender_id) ==> (r == Result::<bool, DpssError>::Err(
                DpssError::IncorrectHandoffLength,
            ) <==> shares@.len() != old(self).votes().len()),
            !old(self).has_sender(sender_id) && shares@.len() == old(self).votes().len() ==> (r
                == Result::<bool, DpssError>::Err(DpssError::IncorrectHandoffSender) <==> old(
                self,
            ).votes().contains(sender_id)),
            r is Ok <==> !old(self).has_sender(sender_id) && shares@.len() == old(
                self,
            ).votes().len() && !old(self).votes().contains(sender_id) && (forall|k: int|
                0 <= k < old(self).votes().len() ==> last_matrix.at(
                    sender_id.0 as int,
                    (#[trigger] old(self).votes()[k]).0 as int,
                ) == scalar_val(shares@[k])),
            r is Ok ==> {
                &&& final(self).has_sender(sender_id)
                &&& final(self).received().len() == old(self).received().len() + 1
                &&& forall|k: int|
                    0 <= k < old(self).votes().len() ==> last_matrix.at(
                        sender_id.0 as int,
                        (#[trigger] old(self).votes()[k]).0 as int,
                    ) == scalar_val(shares@[k])
                &&& r->Ok_0 == (final(self).received().len() >= final(self).row_votes_spec())
            },
            r is Err ==> *final(self) == *old(self),
            final(self).votes() == old(self).votes(),
            final(self).row_votes_spec() == old(self).row_votes_spec(),
    {
        let ghost old_received = self.received_shares@;
        let mut i: usize = 0;
        while i < self.received_shares.len()
            invariant
                0 <= i <= old_received.len(),
                old_received == self.received_shares@,
                *self == *old(self),
                old(self).well_formed(),
                forall|k: int| 0 <= k < i ==> (#[trigger] old_received[k]).0 != sender_id,
            decreases old_received.len() - i,
        {
            if self.received_shares[i].0.0 == sender_id.0 {
                proof {
                    assert((#[trigger] self.received()[i as int]).0 == sender_id);
                    assert(self.has_sender(sender_id));
                }
                return Err(DpssError::DuplicatedHandoffShare);
            }
            i = i + 1;
        }

        if shares.len() != self.vote_id.len() {
            return Err(DpssError::IncorrectHandoffLength);
        }

        let mut in_votes: bool = false;
        let mut v: usize = 0;
        while v < self.vote_id.len()
            invariant
                0 <= v <= self.votes().len(),
                *self == *old(self),
                old_received == self.received_shares@,
                forall|k2: int| 0 <= k2 < old_received.len() ==> (#[trigger] old_received[k2]).0
                    != sender_id,
                in_votes ==> self.votes().contains(sender_id),
                !in_votes ==> forall|k: int|
                    0 <= k < v ==> (#[trigger] self.votes()[k]) != sender_id,
            decreases self.votes().len() - v,
        {
            if self.vote_id[v].0 == sender_id.0 {
                in_votes = true;
                proof {
                    assert((#[trigger] self.votes()[v as int]) == sender_id);
                    assert(self.votes().contains(sender_id));
                }
            }
            v = v + 1;
        }
        proof {
            if !in_votes && self.votes().contains(sender_id) {
                let k = choose|k: int|
                    0 <= k < self.votes().len() && (#[trigger] self.votes()[k]) == sender_id;
            }
        }
        if in_votes {
            return Err(DpssError::IncorrectHandoffSender);
        }

        let mut k: usize = 0;
        while k < self.vote_id.len()
            invariant
                0 <= k <= self.votes().len(),
                *self == *old(self),
                old(self).well_formed(),
                old_received == self.received_shares@,
                forall|k2: int| 0 <= k2 < old_received.len() ==> (#[trigger] old_received[k2]).0
                    != sender_id,
                !self.votes().contains(sender_id),
                shares@.len() == self.votes().len(),
                last_matrix.well_formed(),
                sender_id.0 < last_matrix.cols_spec(),
                forall|t: int|
                    0 <= t < self.votes().len() ==> (#[trigger] self.votes()[t]).0
                        < last_matrix.rows_spec(),
                forall|t: int|
                    0 <= t < k ==> last_matrix.at(
                        sender_id.0 as int,
                        (#[trigger] self.votes()[t]).0 as int,
                    ) == scalar_val(shares@[t]),
            decreases self.votes().len() - k,
        {
            let expected = last_matrix.cell(sender_id.as_usize(), self.vote_id[k].as_usize());
            let actual = el_mul_base(&shares[k]);
            if !el_eq(&expected, &actual) {
                proof {
                    assert(last_matrix.at(
                        sender_id.0 as int,
                        (#[trigger] self.votes()[k as int]).0 as int,
                    ) != scalar_val(shares@[k as int]));
                }
                return Err(DpssError::IncorrectHandoffShare);
            }
            k = k + 1;
        }

        self.received_shares.push((sender_id, shares));
        proof {
            let n = old_received.len() as int;
            assert((#[trigger] self.received()[n]).0 == sender_id);
            assert(self.has_sender(sender_id));
            assert forall|a: int, b: int|
                0 <= a < b < self.received().len() implies self.received()[a].0
                != self.received()[b].0 by {
                if b < n {
                    assert(old(self).received()[a].0 != old(self).received()[b].0);
                } else {
                    assert((#[trigger] old_received[a]).0 != sender_id);
                }
            }
            assert forall|i2: int|
                0 <= i2 < self.received().len() implies (#[trigger] self.received()[i2]).0.0 > 0
                && self.received()[i2].1@.len() == self.votes().len() by {
                if i2 < n {
                    assert((#[trigger] old(self).received()[i2]).0.0 > 0);
                    assert(old(self).received()[i2].1@.len() == old(self).votes().len());
                }
            }
        }
        Ok(self.received_shares.len() >= self.row_votes)
    }

    /// Recovers this holder's new column shares: per receiver vote, the
    /// senders' shares at that position interpolate (at the secret's
    /// evaluation point) to the new share.
    pub fn construct_col_share(&self) -> (r: Vec<(VoteID, k256::Scalar)>)
        requires
            self.well_formed(),
            self.received().len() > 0,
        ensures
            r@.len() == self.votes().len(),
            forall|k: int|
                0 <= k < r@.len() ==> (#[trigger] r@[k]).0 == self.votes()[k] && scalar_val(
                    r@[k].1,
                ) == interp_eval(
                    Seq::new(
                        self.received().len(),
                        |w: int|
                            (
                                self.received()[w].0.0 as nat,
                                scalar_val(self.received()[w].1@[k]),
                            ),
                    ),
                    0,
                ),
    {
        let mut out: Vec<(VoteID, k256::Scalar)> = Vec::new();
        let mut k: usize = 0;
        while k < self.vote_id.len()
            invariant
                0 <= k <= self.votes().len(),
                self.well_formed(),
                self.received().len() > 0,
                out@.len() == k,
                forall|t: int|
                    0 <= t < k ==> (#[trigger] out@[t]).0 == self.votes()[t] && scalar_val(
                        out@[t].1,
                    ) == interp_eval(
                        Seq::new(
                            self.received().len(),
                            |w: int|
                                (
                                    self.received()[w].0.0 as nat,
                                    scalar_val(self.received()[w].1@[t]),
                                ),
                        ),
                        0,
                    ),
            decreases self.votes().len() - k,
        {
            let mut points: Vec<(usize, k256::Scalar)> = Vec::new();
            let mut w: usize = 0;
            while w < self.received_shares.len()
                invariant
                    0 <= w <= self.received().len(),
                    self.well_formed(),
                    k < self.votes().len(),
                    points@.len() == w,
                    forall|t: int|
                        0 <= t < w ==> (#[trigger] points@[t]).0 == self.received()[t].0.0
                            && scalar_val(points@[t].1) == scalar_val(
                            self.received()[t].1@[k as int],
                        ) && points@[t].0 > 0,
                decreases self.received().len() - w,
            {
                let sender = self.received_shares[w].0.as_usize();
                let share = scalar_clone(&self.received_shares[w].1[k]);
                points.push((sender, share));
                w = w + 1;
            }
            let recovered = interpolate_and_evaluate_share(&points);
            proof {
                assert(crate::interpolate::scalar_model(points@) =~= Seq::new(
                    self.received().len(),
                    |w2: int|
                        (
                            self.received()[w2].0.0 as nat,
                            scalar_val(self.received()[w2].1@[k as int]),
                        ),
                ));
            }
            out.push((self.vote_id[k], recovered));
            k = k + 1;
        }
        out
    }
}

} // verus!
