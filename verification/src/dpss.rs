//! Proactive resharing of the committee's secret, one epoch at a time.
//!
//! A resharing round first runs a distributed key generation whose joint
//! secret shifts every share (a zero secret leaves the public key
//! unchanged), then expects each current share-holder to deal a fresh
//! polynomial whose constant term equals its own shifted verifying
//! share. The accepted dealings fill the rows of the next epoch's
//! element matrix; Lagrange interpolation recovers the remaining rows of
//! every auxiliary column. Column zero of the finished matrix is the
//! next epoch's per-vote verifying shares.

use vstd::prelude::*;
use crate::curve::{el_eq, fadd, group_order, point_log};
use crate::dkg_state::DkgState;
use crate::frost_context::FrostPubKeyContext;
use crate::ids::{NodeID, VoteGroup, VoteID};
use crate::matrix::Matrix;
use crate::modmath::lemma_poly_eval_zero;
use crate::poly::{poly_eval, AffinePolynomialCommitment, PolynomialCommitment, H256};

verus! {

#[derive(Clone, Copy, Debug, PartialEq, Eq)]
pub enum DpssError {
    /// A reshare dealing's constant term is not the dealer's share.
    InvalidReshareCommitment,
    /// The key-generation stage has not yet gathered enough votes.
    DkgStageNotComplete,
    /// The key-generation stage is already over.
    DkgStageHasFinished,
    /// The resharing already gathered enough submissions.
    EnoughReshareSubmit,
    /// The previous epoch has not produced its matrix yet.
    LastEpochNotComplete,
    /// A handoff message does not carry one share per vote.
    IncorrectHandoffLength,
    /// A handoff share does not match the sender's matrix row.
    IncorrectHandoffShare,
    /// The handoff sender is not a previous-epoch share-holder.
    IncorrectHandoffSender,
    /// The sender already handed its shares off.
    DuplicatedHandoffShare,
}

/// Collects reshare dealings: each current share-holder must deal a
/// polynomial whose constant term equals that vote's expected verifying
/// share, recorded in `commitment_points`.
pub struct ReshareState {
    commitment_points: Vec<k256::ProjectivePoint>,
    accepted_commitments: Vec<H256>,
    valid_submissions: Vec<(VoteID, PolynomialCommitment)>,
    target_votes: usize,
}

impl ReshareState {
    /// The expected constant terms, one per row of the next matrix.
    pub closed spec fn points(&self) -> Seq<nat> {
        self.commitment_points@.map_values(|p: k256::ProjectivePoint| point_log(p))
    }

    pub closed spec fn target(&self) -> int {
        self.target_votes as int
    }

    pub closed spec fn subs(&self) -> Seq<(VoteID, PolynomialCommitment)> {
        self.valid_submissions@
    }

    pub open spec fn has_sub(&self, v: VoteID) -> bool {
        exists|i: int| 0 <= i < self.subs().len() && (#[trigger] self.subs()[i]).0 == v
    }

    pub closed spec fn accepted_hashes(&self) -> Seq<H256> {
        self.accepted_commitments@
    }

    pub open spec fn well_formed(&self) -> bool {
        &&& forall|i: int, j: int|
            0 <= i < j < self.subs().len() ==> self.subs()[i].0 != self.subs()[j].0
        &&& forall|i: int| 0 <= i < self.points().len() ==> (#[trigger] self.points()[i])
            < group_order()
        &&& forall|i: int|
            0 <= i < self.subs().len() ==> {
                &&& (#[trigger] self.subs()[i]).1.logs().len() > 0
                &&& self.subs()[i].0.0 < self.points().len()
                &&& self.subs()[i].1.logs()[0] == self.points()[self.subs()[i].0.0 as int]
            }
    }

    /// A fresh collection with no submissions. The expected constant
    /// terms are genuine curve points, so their logarithms are reduced.
    pub fn new(
        commitment_points: Vec<k256::ProjectivePoint>,
        accepted_commitments: Vec<H256>,
        target_votes: usize,
    ) -> (r: ReshareState)
        requires
            forall|i: int|
                0 <= i < commitment_points@.len() ==> point_log(#[trigger] commitment_points@[i])
                    < group_order(),
        ensures
            r.well_formed(),
            r.points() == commitment_points@.map_values(|p: k256::ProjectivePoint| point_log(p)),
            r.target() == target_votes,
            r.subs().len() == 0,
            r.accepted_hashes() == accepted_commitments@,
    {
        ReshareState {
            commitment_points,
            accepted_commitments,
            valid_submissions: Vec::new(),
            target_votes,
        }
    }

    /// The expected constant terms after a key-generation run: column
    /// zero of the previous matrix, shifted by the joint commitment.
    pub fn from_dkg_stage(state: &DkgState, last_matrix: &Matrix, target_votes: usize) -> (r:
        ReshareState)
        requires
            last_matrix.well_formed(),
            last_matrix.cols_spec() > 0,
        ensures
            r.well_formed(),
            r.points().len() == last_matrix.rows_spec(),
            forall|i: int|
                0 <= i < last_matrix.rows_spec() ==> #[trigger] r.points()[i] == fadd(
                    last_matrix.at(0, i),
                    poly_eval(state.logs(), i as nat),
                ),
            r.target() == target_votes,
            r.subs().len() == 0,
            r.accepted_hashes().len() == state.hash_count(),
            forall|i: int|
                0 <= i < r.accepted_hashes().len() ==> state.has_hash(
                    (#[trigger] r.accepted_hashes()[i])@,
                ),
            forall|h: Seq<u8>|
                #[trigger] state.has_hash(h) ==> exists|i: int|
                    0 <= i < r.accepted_hashes().len() && (#[trigger] r.accepted_hashes()[i])@
                        == h,
    {
        let element_list = last_matrix.get_col_add(0, state.commitment());
        let hashes = state.commitment_hashes();
        let mut accepted: Vec<H256> = Vec::new();
        let mut i: usize = 0;
        while i < hashes.len()
            invariant
                0 <= i <= hashes@.len(),
                accepted@.len() == i,
                forall|k: int| 0 <= k < i ==> (#[trigger] accepted@[k])@ == hashes@[k]@,
            decreases hashes@.len() - i,
        {
            accepted.push(hashes[i].clone());
            i = i + 1;
        }
        proof {
            assert forall|h: Seq<u8>| #[trigger] state.has_hash(h) implies exists|i2: int|
                0 <= i2 < accepted@.len() && (#[trigger] accepted@[i2])@ == h by {
                let i2 = choose|i2: int|
                    0 <= i2 < hashes@.len() && (#[trigger] hashes@[i2])@ == h;
                assert(accepted@[i2]@ == h);
            }
        }
        proof {
            assert forall|i2: int|
                0 <= i2 < element_list@.len() implies point_log(#[trigger] element_list@[i2])
                < group_order() by {
                crate::modmath::lemma_fadd_bound(
                    last_matrix.at(0, i2),
                    poly_eval(state.logs(), i2 as nat),
                );
            }
        }
        ReshareState::new(element_list, accepted, target_votes)
    }

    /// Accepts a dealing whose constant term equals the dealer vote's
    /// expected verifying share; any other dealing is refused. Returns
    /// whether the target number of submissions is now reached. A second
    /// dealing from the same vote overwrites the first.
    pub fn receive_reshare_message(&mut self, vote_id: VoteID, commitment: PolynomialCommitment)
        -> (r: Result<bool, DpssError>)
        requires
            old(self).well_formed(),
            vote_id.0 < old(self).points().len(),
            commitment.logs().len() > 0,
        ensures
            final(self).well_formed(),
            r is Ok <==> commitment.logs()[0] == old(self).points()[vote_id.0 as int],
            r is Err ==> r == Result::<bool, DpssError>::Err(DpssError::InvalidReshareCommitment)
                && *final(self) == *old(self),
            r is Ok ==> {
                &&& final(self).has_sub(vote_id)
                &&& r->Ok_0 == (final(self).subs().len() == final(self).target())
                &&& (old(self).has_sub(vote_id) ==> final(self).subs().len() == old(self).subs().len())
                &&& (!old(self).has_sub(vote_id) ==> final(self).subs().len() == old(self).subs().len() + 1)
            },
            final(self).points() == old(self).points(),
            final(self).target() == old(self).target(),
            final(self).accepted_hashes() == old(self).accepted_hashes(),
    {
        let expected = &self.commitment_points[vote_id.as_usize()];
        let actual = commitment.constant_term();
        if !el_eq(expected, &actual) {
            return Err(DpssError::InvalidReshareCommitment);
        }
        proof {
            assert(point_log(actual) == commitment.logs()[0]);
            assert(point_log(self.commitment_points@[vote_id.0 as int]) == self.points()[
                vote_id.0 as int
            ]);
            assert(commitment.logs()[0] == self.points()[vote_id.0 as int]);
        }

        let ghost old_subs = self.valid_submissions@;
        let mut i: usize = 0;
        let mut found: Option<usize> = None;
        while i < self.valid_submissions.len()
            invariant
                0 <= i <= self.valid_submissions@.len(),
                old_subs == self.valid_submissions@,
                found is None ==> forall|k: int| 0 <= k < i ==> (#[trigger] old_subs[k]).0 != vote_id,
                found is Some ==> found->0 < old_subs.len() && (#[trigger] old_subs[found->0 as int]).0
                    == vote_id,
            decreases self.valid_submissions@.len() - i,
        {
            if self.valid_submissions[i].0.0 == vote_id.0 {
                found = Some(i);
                proof {
                    assert((#[trigger] old_subs[i as int]).0 == vote_id);
                }
                i = self.valid_submissions.len();
            } else {
                i = i + 1;
            }
        }
        match found {
            Some(idx) => {
                self.valid_submissions.set(idx, (vote_id, commitment));
                proof {
                    assert(self.valid_submissions@[idx as int].0 == vote_id);
                    assert forall|a: int, b: int|
                        0 <= a < b < self.subs().len() implies self.subs()[a].0 != self.subs()[b].0
                        by {
                        assert(old(self).subs()[a] == old_subs[a]);
                        assert(old(self).subs()[b] == old_subs[b]);
                        assert(old(self).subs()[a].0 != old(self).subs()[b].0);
                    }
                }
            },
            None => {
                self.valid_submissions.push((vote_id, commitment));
                proof {
                    let n = self.valid_submissions@.len() - 1;
                    assert(self.valid_submissions@[n].0 == vote_id);
                    assert forall|a: int, b: int|
                        0 <= a < b < self.subs().len() implies self.subs()[a].0 != self.subs()[b].0
                        by {
                        if b < n {
                            assert(old(self).subs()[a] == old_subs[a]);
                            assert(old(self).subs()[b] == old_subs[b]);
                            assert(old(self).subs()[a].0 != old(self).subs()[b].0);
                        } else {
                            assert((#[trigger] old_subs[a]).0 != vote_id);
                        }
                    }
                }
            },
        }
        proof {
            let wi: int = if found is Some {
                found->0 as int
            } else {
                self.subs().len() - 1
            };
            assert((#[trigger] self.subs()[wi]).0 == vote_id);
            assert(self.subs()[wi].1 == commitment);
            assert(self.has_sub(vote_id));
            assert(self.points() == old(self).points());
            assert forall|i2: int|
                0 <= i2 < self.subs().len() implies ((#[trigger] self.subs()[i2]).1.logs().len()
                > 0 && self.subs()[i2].0.0 < self.points().len() && self.subs()[i2].1.logs()[0]
                == self.points()[self.subs()[i2].0.0 as int]) by {
                if i2 == wi {
                    assert(self.subs()[wi].1.logs() == commitment.logs());
                } else {
                    assert(self.subs()[i2] == old(self).subs()[i2]);
                    assert((#[trigger] old(self).subs()[i2]).1.logs().len() > 0);
                    assert(old(self).subs()[i2].0.0 < old(self).points().len());
                    assert(old(self).subs()[i2].1.logs()[0] == old(self).points()[old(self).subs()[i2].0.0 as int]);
                }
            }
        }
        Ok(self.valid_submissions.len() == self.target_votes)
    }

    /// Whether some accepted dealing fills this row.
    pub open spec fn is_dealer_row(&self, row: int) -> bool {
        exists|k: int| 0 <= k < self.subs().len() && (#[trigger] self.subs()[k]).0.0 == row
    }

    /// The interpolation points an auxiliary column gets from the
    /// accepted dealings: each dealer's row paired with its polynomial
    /// evaluated at that column.
    pub open spec fn column_points(&self, c: int) -> Seq<(nat, nat)> {
        Seq::new(
            self.subs().len(),
            |k: int| (self.subs()[k].0.0 as nat, poly_eval(self.subs()[k].1.logs(), c as nat)),
        )
    }

    /// Builds the next epoch's matrix: column zero is exactly the
    /// expected verifying shares; each accepted dealer's row carries its
    /// polynomial evaluated at every column; every other cell of the
    /// auxiliary columns is recovered by interpolation across the
    /// dealers' rows.
    pub fn make_new_matrix(&self, empty_matrix: &mut Matrix)
        requires
            self.well_formed(),
            self.subs().len() > 0,
            old(empty_matrix).well_formed(),
            old(empty_matrix).rows_spec() == self.points().len(),
            old(empty_matrix).cols_spec() > 0,
        ensures
            final(empty_matrix).well_formed(),
            final(empty_matrix).rows_spec() == old(empty_matrix).rows_spec(),
            final(empty_matrix).cols_spec() == old(empty_matrix).cols_spec(),
            forall|row: int|
                0 <= row < old(empty_matrix).rows_spec() ==> #[trigger] final(empty_matrix).at(
                    0,
                    row,
                ) == self.points()[row],
            forall|k: int, c: int|
                0 <= k < self.subs().len() && 0 <= c < old(empty_matrix).cols_spec()
                    ==> #[trigger] final(empty_matrix).at(c, (#[trigger] self.subs()[k]).0.0 as int)
                    == poly_eval(self.subs()[k].1.logs(), c as nat),
            // every other cell of the auxiliary columns is recovered by
            // interpolation across the dealers' rows
            forall|c: int, row: int|
                1 <= c < old(empty_matrix).cols_spec() && 0 <= row < old(
                    empty_matrix,
                ).rows_spec() && !self.is_dealer_row(row) ==> #[trigger] final(empty_matrix).at(
                    c,
                    row,
                ) == crate::interpolate::interp_eval(self.column_points(c), row as nat),
    {
        let ghost rows = old(empty_matrix).rows_spec();
        let ghost cols = old(empty_matrix).cols_spec();
        let nrows = empty_matrix.rows();
        empty_matrix.set_col(0, &self.commitment_points);

        let mut filled: Vec<usize> = Vec::new();
        let mut k: usize = 0;
        while k < self.valid_submissions.len()
            invariant
                0 <= k <= self.subs().len(),
                self.well_formed(),
                empty_matrix.well_formed(),
                empty_matrix.rows_spec() == rows,
                empty_matrix.cols_spec() == cols,
                rows == self.points().len(),
                cols > 0,
                filled@.len() == k,
                forall|m: int| 0 <= m < k ==> (#[trigger] filled@[m]) == self.subs()[m].0.0,
                // column zero stays the expected constant terms
                forall|row: int|
                    0 <= row < rows ==> #[trigger] empty_matrix.at(0, row) == self.points()[row],
                // processed dealers' rows carry their polynomial
                forall|m: int, c: int|
                    0 <= m < k && 0 <= c < cols ==> #[trigger] empty_matrix.at(
                        c,
                        (#[trigger] self.subs()[m]).0.0 as int,
                    ) == poly_eval(self.subs()[m].1.logs(), c as nat),
            decreases self.subs().len() - k,
        {
            let ghost pre = *empty_matrix;
            let row_idx = self.valid_submissions[k].0.as_usize();
            empty_matrix.evaluate_row(row_idx, &self.valid_submissions[k].1);
            filled.push(row_idx);
            proof {
                // the refilled cell of column zero equals the expected term
                lemma_poly_eval_zero(self.subs()[k as int].1.logs());
                assert(empty_matrix.at(0, row_idx as int) == self.points()[row_idx as int]);
                assert forall|m: int, c: int|
                    0 <= m < k + 1 && 0 <= c < cols implies #[trigger] empty_matrix.at(
                        c,
                        (#[trigger] self.subs()[m]).0.0 as int,
                    ) == poly_eval(self.subs()[m].1.logs(), c as nat) by {
                    if m < k {
                        assert(self.subs()[m].0 != self.subs()[k as int].0);
                        assert(self.subs()[m].0.0 != row_idx);
                        assert(pre.at(c, self.subs()[m].0.0 as int) == poly_eval(
                            self.subs()[m].1.logs(),
                            c as nat,
                        ));
                    }
                }
            }
            k = k + 1;
        }

        let mut c: usize = 1;
        while c < empty_matrix.cols()
            invariant
                1 <= c <= cols,
                self.well_formed(),
                empty_matrix.well_formed(),
                empty_matrix.rows_spec() == rows,
                empty_matrix.cols_spec() == cols,
                rows == nrows as int,
                rows == self.points().len(),
                cols > 0,
                filled@.len() == self.subs().len(),
                filled@.len() > 0,
                forall|m: int| 0 <= m < filled@.len() ==> (#[trigger] filled@[m]) == self.subs()[m].0.0,
                forall|row: int|
                    0 <= row < rows ==> #[trigger] empty_matrix.at(0, row) == self.points()[row],
                forall|m: int, c2: int|
                    0 <= m < self.subs().len() && 0 <= c2 < cols ==> #[trigger] empty_matrix.at(
                        c2,
                        (#[trigger] self.subs()[m]).0.0 as int,
                    ) == poly_eval(self.subs()[m].1.logs(), c2 as nat),
                forall|c2: int, row: int|
                    1 <= c2 < c && 0 <= row < rows && !self.is_dealer_row(row)
                        ==> #[trigger] empty_matrix.at(c2, row)
                        == crate::interpolate::interp_eval(self.column_points(c2), row as nat),
            decreases cols - c,
        {
            proof {
                assert forall|a: int, b: int|
                    0 <= a < b < filled@.len() implies filled@[a] != filled@[b] by {
                    assert(self.subs()[a].0 != self.subs()[b].0);
                }
                assert forall|m: int|
                    0 <= m < filled@.len() implies (#[trigger] filled@[m]) < rows by {
                    assert(self.subs()[m].0.0 < self.points().len());
                }
            }
            let ghost pre = *empty_matrix;
            empty_matrix.interpolate_col(c, &filled);
            proof {
                assert forall|m: int, c2: int|
                    0 <= m < self.subs().len() && 0 <= c2 < cols implies #[trigger] empty_matrix.at(
                        c2,
                        (#[trigger] self.subs()[m]).0.0 as int,
                    ) == poly_eval(self.subs()[m].1.logs(), c2 as nat) by {
                    if c2 == c {
                        assert(filled@[m] == self.subs()[m].0.0);
                        assert(empty_matrix.at(c as int, filled@[m] as int) == pre.at(
                            c as int,
                            filled@[m] as int,
                        ));
                    }
                }
                assert forall|row: int|
                    0 <= row < rows implies #[trigger] empty_matrix.at(0, row)
                    == self.points()[row] by {
                    assert(empty_matrix.at(0, row) == pre.at(0, row));
                }
                // the interpolation points of this column are the
                // dealers' evaluations
                assert(pre.col_points(c as int, filled@) =~= self.column_points(c as int)) by {
                    assert forall|m: int|
                        0 <= m < filled@.len() implies pre.col_points(c as int, filled@)[m]
                        == self.column_points(c as int)[m] by {
                        assert(filled@[m] == self.subs()[m].0.0);
                        assert(pre.at(c as int, filled@[m] as int) == poly_eval(
                            self.subs()[m].1.logs(),
                            c as nat,
                        ));
                    }
                }
                assert forall|c2: int, row: int|
                    1 <= c2 < c + 1 && 0 <= row < rows && !self.is_dealer_row(row)
                        implies #[trigger] empty_matrix.at(c2, row)
                        == crate::interpolate::interp_eval(
                        self.column_points(c2),
                        row as nat,
                    ) by {
                    if c2 < c {
                        assert(empty_matrix.at(c2, row) == pre.at(c2, row));
                    } else {
                        assert(row <= usize::MAX as int);
                        assert(!filled@.contains(row as usize)) by {
                            if filled@.contains(row as usize) {
                                let m = choose|m: int|
                                    0 <= m < filled@.len() && filled@[m] == row as usize;
                                assert(filled@[m] == self.subs()[m].0.0);
                                assert(self.subs()[m].0.0 == row as usize);
                                assert((#[trigger] self.subs()[m]).0.0 == row);
                                assert(self.is_dealer_row(row));
                            }
                        }
                        assert(empty_matrix.at(c as int, row) == crate::interpolate::interp_eval(
                            pre.col_points(c as int, filled@),
                            row as nat,
                        ));
                    }
                }
            }
            c = c + 1;
        }
    }
}

/// The stage an epoch's resharing is in.
pub enum DpssStage {
    /// Gathering key-generation dealings; the flag records that the
    /// stage may close as soon as the vote threshold is met.
    DkgStage(DkgState, bool),
    /// Gathering reshare dealings.
    ReshareStage(ReshareState),
    /// The next epoch's matrix is ready.
    Complete(Matrix),
}

/// Drives one epoch's resharing: key generation, then resharing, then
/// the finished matrix.
pub struct DpssEpochState {
    epoch: u64,
    stage: DpssStage,
    last_matrix: Matrix,
    vote_groups: VoteGroup,
    dkg_votes: usize,
    reshare_votes: usize,
    sign_votes: usize,
}

impl DpssEpochState {
    pub closed spec fn stage_of(&self) -> DpssStage {
        self.stage
    }

    pub closed spec fn epoch_spec(&self) -> u64 {
        self.epoch
    }

    pub closed spec fn last_matrix_spec(&self) -> Matrix {
        self.last_matrix
    }

    pub closed spec fn groups(&self) -> VoteGroup {
        self.vote_groups
    }

    pub closed spec fn dkg_votes_spec(&self) -> int {
        self.dkg_votes as int
    }

    pub closed spec fn reshare_votes_spec(&self) -> int {
        self.reshare_votes as int
    }

    pub closed spec fn sign_votes_spec(&self) -> int {
        self.sign_votes as int
    }

    pub open spec fn well_formed(&self) -> bool {
        &&& self.last_matrix_spec().well_formed()
        &&& self.last_matrix_spec().cols_spec() > 0
        &&& self.groups().well_formed()
        &&& self.reshare_votes_spec() >= 1
        &&& (self.stage_of() matches DpssStage::DkgStage(st, _) ==> st.well_formed())
        &&& (self.stage_of() matches DpssStage::ReshareStage(rs) ==> rs.well_formed()
            && rs.points().len() == self.last_matrix_spec().rows_spec() && rs.target()
            == self.reshare_votes_spec())
        &&& (self.stage_of() matches DpssStage::Complete(m) ==> m.well_formed())
    }

    /// A fresh epoch in its key-generation stage, with the previous
    /// epoch's matrix and this epoch's vote assignment and thresholds.
    pub fn new(
        epoch: u64,
        last_matrix: Matrix,
        vote_groups: VoteGroup,
        dkg_votes: usize,
        reshare_votes: usize,
        sign_votes: usize,
    ) -> (r: DpssEpochState)
        requires
            last_matrix.well_formed(),
            last_matrix.cols_spec() > 0,
            vote_groups.well_formed(),
            reshare_votes >= 1,
        ensures
            r.well_formed(),
            r.epoch_spec() == epoch,
            r.last_matrix_spec() == last_matrix,
            r.stage_of() matches DpssStage::DkgStage(st, can) && st.votes() == 0 && can == false,
            r.dkg_votes_spec() == dkg_votes,
    {
        DpssEpochState {
            epoch,
            stage: DpssStage::DkgStage(DkgState::new(), false),
            last_matrix,
            vote_groups,
            dkg_votes,
            reshare_votes,
            sign_votes,
        }
    }

    /// Forwards one dealer's key-generation commitment, weighted by the
    /// dealer's votes. Refused outside the key-generation stage.
    pub fn receive_dkg_participate(&mut self, node_id: NodeID, commitment: AffinePolynomialCommitment)
        -> (r: Result<(), DpssError>)
        requires
            old(self).well_formed(),
            old(self).stage_of() matches DpssStage::DkgStage(st, _) ==> st.votes() + old(self).groups().votes_of(node_id).len() <= usize::MAX && st.nodes() + 1 <= usize::MAX,
        ensures
            final(self).well_formed(),
            r is Ok <==> old(self).stage_of() is DkgStage,
            !(old(self).stage_of() is DkgStage) ==> r == Result::<(), DpssError>::Err(
                DpssError::DkgStageHasFinished,
            ) && *final(self) == *old(self),
            old(self).stage_of() matches DpssStage::DkgStage(st, can)
                ==> (final(self).stage_of() matches DpssStage::DkgStage(st2, can2) && can2 == can
                && (!st.has_hash(
                crate::poly::commitment_hash_of(commitment.logs()),
            ) ==> st2.votes() == st.votes() + old(self).groups().votes_of(node_id).len()
                && st2.logs() == crate::poly::pc_add(st.logs(), commitment.logs())) && (st.has_hash(
                crate::poly::commitment_hash_of(commitment.logs()),
            ) ==> st2 == st)),
            final(self).epoch_spec() == old(self).epoch_spec(),
            final(self).last_matrix_spec() == old(self).last_matrix_spec(),
            final(self).groups() == old(self).groups(),
    {
        let node_votes = self.vote_groups.node_votes(node_id);
        match &mut self.stage {
            DpssStage::DkgStage(state, _) => {
                state.receive_new_commitment(node_votes, commitment);
                Ok(())
            },
            _ => Err(DpssError::DkgStageHasFinished),
        }
    }

    /// Closes the key-generation stage if its vote threshold is met,
    /// moving to the resharing stage; otherwise records that it may
    /// close as soon as the threshold is met. Refused once past key
    /// generation.
    pub fn try_finish_dkg_stage(&mut self) -> (r: Result<bool, DpssError>)
        requires
            old(self).well_formed(),
        ensures
            final(self).well_formed(),
            r is Ok <==> old(self).stage_of() is DkgStage,
            !(old(self).stage_of() is DkgStage) ==> r == Result::<bool, DpssError>::Err(
                DpssError::DkgStageHasFinished,
            ) && *final(self) == *old(self),
            old(self).stage_of() matches DpssStage::DkgStage(st, can)
                ==> ((st.votes() >= old(self).dkg_votes_spec() ==> r == Result::<
                bool,
                DpssError,
            >::Ok(true) && final(self).stage_of() is ReshareStage) && (st.votes() < old(self).dkg_votes_spec() ==> r == Result::<bool, DpssError>::Ok(false) && final(self).stage_of() == DpssStage::DkgStage(st, true))),
            final(self).epoch_spec() == old(self).epoch_spec(),
            final(self).last_matrix_spec() == old(self).last_matrix_spec(),
            final(self).groups() == old(self).groups(),
    {
        match &self.stage {
            DpssStage::DkgStage(state, _) => {
                if state.has_enough_votes(self.dkg_votes) {
                    let reshare = ReshareState::from_dkg_stage(
                        state,
                        &self.last_matrix,
                        self.reshare_votes,
                    );
                    self.stage = DpssStage::ReshareStage(reshare);
                    Ok(true)
                } else {
                    match &mut self.stage {
                        DpssStage::DkgStage(_, can_finish) => {
                            *can_finish = true;
                        },
                        _ => (),
                    }
                    Ok(false)
                }
            },
            _ => Err(DpssError::DkgStageHasFinished),
        }
    }

    /// Routes one reshare dealing. The first dealing after the
    /// key-generation threshold is met closes that stage; a dealing that
    /// reaches the submission target builds the next epoch's matrix and
    /// completes the epoch.
    pub fn receive_reshare_message(&mut self, vote_id: VoteID, commitment: PolynomialCommitment)
        -> (r: Result<(), DpssError>)
        requires
            old(self).well_formed(),
            vote_id.0 < old(self).last_matrix_spec().rows_spec(),
            commitment.logs().len() > 0,
        ensures
            final(self).well_formed(),
            r == Result::<(), DpssError>::Err(DpssError::DkgStageNotComplete) <==> (old(self).stage_of() matches DpssStage::DkgStage(st, can) && (!can || st.votes() < old(self).dkg_votes_spec())),
            r == Result::<(), DpssError>::Err(DpssError::EnoughReshareSubmit) <==> old(self).stage_of() is Complete,
            r is Err && !(r == Result::<(), DpssError>::Err(
                DpssError::InvalidReshareCommitment,
            )) ==> *final(self) == *old(self),
            old(self).stage_of() matches DpssStage::ReshareStage(rs) ==> (r is Ok
                || r == Result::<(), DpssError>::Err(DpssError::InvalidReshareCommitment)) && (r
                is Ok <==> commitment.logs()[0] == rs.points()[vote_id.0 as int]),
            r is Ok ==> (final(self).stage_of() matches DpssStage::ReshareStage(rs2)
                && rs2.has_sub(vote_id) || final(self).stage_of() is Complete),
            // on completion, column zero of the finished matrix carries the
            // expected verifying shares
            !(old(self).stage_of() is Complete) ==> (final(self).stage_of() matches
                DpssStage::Complete(m) ==> r is Ok && m.well_formed() && m.rows_spec() == old(self).last_matrix_spec().rows_spec() && m.cols_spec() == old(self).last_matrix_spec().cols_spec()),
            // the expected points survive from the open resharing to the
            // finished matrix's column zero
            old(self).stage_of() matches DpssStage::ReshareStage(rs0) ==> ((final(self).stage_of() matches DpssStage::ReshareStage(rs2) ==> rs2.points() == rs0.points())
                && (final(self).stage_of() matches DpssStage::Complete(m) ==> forall|row: int|
                0 <= row < m.rows_spec() ==> #[trigger] m.at(0, row) == rs0.points()[row])),
            // and at the key-generation handover they are the previous
            // shares shifted by the joint commitment
            old(self).stage_of() matches DpssStage::DkgStage(st, can) ==> (can && st.votes()
                >= old(self).dkg_votes_spec() ==> ((final(self).stage_of() matches
                DpssStage::ReshareStage(rs2) ==> rs2.points().len() == old(self).last_matrix_spec().rows_spec() && (forall|i: int|
                0 <= i < rs2.points().len() ==> #[trigger] rs2.points()[i] == fadd(
                    old(self).last_matrix_spec().at(0, i),
                    poly_eval(st.logs(), i as nat),
                ))) && (final(self).stage_of() matches DpssStage::Complete(m) ==> forall|row: int|
                0 <= row < m.rows_spec() ==> #[trigger] m.at(0, row) == fadd(
                    old(self).last_matrix_spec().at(0, row),
                    poly_eval(st.logs(), row as nat),
                )))),
            final(self).epoch_spec() == old(self).epoch_spec(),
            final(self).last_matrix_spec() == old(self).last_matrix_spec(),
            final(self).groups() == old(self).groups(),
    {
        let go_reshare: bool;
        match &self.stage {
            DpssStage::DkgStage(_, false) => {
                return Err(DpssError::DkgStageNotComplete);
            },
            DpssStage::DkgStage(st, true) => {
                if !st.has_enough_votes(self.dkg_votes) {
                    return Err(DpssError::DkgStageNotComplete);
                }
                go_reshare = true;
            },
            DpssStage::ReshareStage(_) => {
                go_reshare = false;
            },
            DpssStage::Complete(_) => {
                return Err(DpssError::EnoughReshareSubmit);
            },
        }
        if go_reshare {
            let reshare = match &self.stage {
                DpssStage::DkgStage(st, _) => ReshareState::from_dkg_stage(
                    st,
                    &self.last_matrix,
                    self.reshare_votes,
                ),
                _ => {
                    proof {
                        assert(false);
                    }
                    ReshareState::new(Vec::new(), Vec::new(), 1)
                },
            };
            self.stage = DpssStage::ReshareStage(reshare);
        }

        let ghost points0 = match self.stage_of() {
            DpssStage::ReshareStage(rs) => rs.points(),
            _ => Seq::empty(),
        };
        let complete: bool;
        match &mut self.stage {
            DpssStage::ReshareStage(rs) => {
                match rs.receive_reshare_message(vote_id, commitment) {
                    Ok(b) => {
                        complete = b;
                    },
                    Err(e) => {
                        return Err(e);
                    },
                }
            },
            _ => {
                proof {
                    assert(false);
                }
                complete = false;
            },
        }
        proof {
            assert(self.stage_of() matches DpssStage::ReshareStage(rs2) && rs2.points()
                == points0);
        }

        if complete {
            let mut new_matrix = self.last_matrix.create_empty();
            match &self.stage {
                DpssStage::ReshareStage(rs) => {
                    rs.make_new_matrix(&mut new_matrix);
                },
                _ => {
                    proof {
                        assert(false);
                    }
                },
            }
            self.stage = DpssStage::Complete(new_matrix);
        }
        Ok(())
    }

    /// Hands the finished matrix to the next epoch; refused while the
    /// resharing is still running.
    pub fn into_complete_matrix(self) -> (r: Result<Matrix, DpssError>)
        requires
            self.well_formed(),
        ensures
            r is Ok <==> self.stage_of() is Complete,
            r matches Ok(m) ==> m.well_formed() && (self.stage_of() matches DpssStage::Complete(m2)
                && m == m2),
            r is Err ==> r == Result::<Matrix, DpssError>::Err(DpssError::LastEpochNotComplete),
    {
        match self.stage {
            DpssStage::Complete(m) => Ok(m),
            _ => Err(DpssError::LastEpochNotComplete),
        }
    }

    /// The public artifacts of this epoch's signing group, read off
    /// column zero of the epoch's matrix: row zero is the verifying key,
    /// each further row the verifying share of that evaluation point.
    pub fn make_frost_context(&self) -> (r: FrostPubKeyContext)
        requires
            self.well_formed(),
            self.last_matrix_spec().rows_spec() >= 1,
        ensures
            r.well_formed(),
            r.epoch == self.epoch_spec(),
            point_log(r.verifying_key) == self.last_matrix_spec().at(0, 0),
            r.verifying_shares@.len() == self.last_matrix_spec().rows_spec() - 1,
            forall|i: int|
                0 <= i < r.verifying_shares@.len() ==> (#[trigger] r.verifying_shares@[i]).0 == i
                    + 1 && point_log(r.verifying_shares@[i].1) == self.last_matrix_spec().at(
                    0,
                    i + 1,
                ),
            r.identifier_groups@.len() == self.groups().entries_seq().len(),
            forall|i: int|
                0 <= i < r.identifier_groups@.len() ==> (#[trigger] r.identifier_groups@[i]).0
                    == self.groups().entries_seq()[i].0 && r.identifier_groups@[i].1@.len()
                    == self.groups().entries_seq()[i].1@.len(),
            forall|i: int, m: int|
                0 <= i < r.identifier_groups@.len() && 0 <= m < r.identifier_groups@[i].1@.len()
                    ==> (#[trigger] r.identifier_groups@[i].1@[m]) == self.groups().entries_seq()[
                    i
                ].1@[m].0 as u64,
            r.num_signing_shares == self.sign_votes_spec(),
    {
        let element_points = self.last_matrix.get_col(0);
        let verifying_key = crate::curve::el_clone(&element_points[0]);
        let mut verifying_shares: Vec<(u64, k256::ProjectivePoint)> = Vec::new();
        let mut i: usize = 1;
        while i < element_points.len()
            invariant
                1 <= i <= element_points@.len(),
                element_points@.len() == self.last_matrix_spec().rows_spec(),
                forall|k: int|
                    0 <= k < element_points@.len() ==> point_log(#[trigger] element_points@[k])
                        == self.last_matrix_spec().at(0, k),
                verifying_shares@.len() == i - 1,
                forall|k: int|
                    0 <= k < i - 1 ==> (#[trigger] verifying_shares@[k]).0 == k + 1 && point_log(
                        verifying_shares@[k].1,
                    ) == self.last_matrix_spec().at(0, k + 1),
            decreases element_points@.len() - i,
        {
            verifying_shares.push((i as u64, crate::curve::el_clone(&element_points[i])));
            i = i + 1;
        }

        let mut identifier_groups: Vec<(NodeID, Vec<u64>)> = Vec::new();
        let mut g: usize = 0;
        while g < self.vote_groups.len()
            invariant
                0 <= g <= self.groups().entries_seq().len(),
                self.groups().well_formed(),
                identifier_groups@.len() == g,
                forall|k: int|
                    0 <= k < g ==> (#[trigger] identifier_groups@[k]).0
                        == self.groups().entries_seq()[k].0 && identifier_groups@[k].1@.len()
                        == self.groups().entries_seq()[k].1@.len(),
                forall|k: int, m: int|
                    0 <= k < g && 0 <= m < identifier_groups@[k].1@.len()
                        ==> (#[trigger] identifier_groups@[k].1@[m])
                        == self.groups().entries_seq()[k].1@[m].0 as u64,
            decreases self.groups().entries_seq().len() - g,
        {
            let node = self.vote_groups.node_at(g);
            let votes = self.vote_groups.votes_at(g);
            let mut ids: Vec<u64> = Vec::new();
            let mut m: usize = 0;
            while m < votes.len()
                invariant
                    0 <= m <= votes@.len(),
                    ids@.len() == m,
                    forall|k: int| 0 <= k < m ==> (#[trigger] ids@[k]) == votes@[k].0 as u64,
                decreases votes@.len() - m,
            {
                ids.push(votes[m].0 as u64);
                m = m + 1;
            }
            identifier_groups.push((node, ids));
            g = g + 1;
        }

        let r = FrostPubKeyContext {
            epoch: self.epoch,
            verifying_key,
            verifying_shares,
            identifier_groups,
            num_signing_shares: self.sign_votes,
        };
        proof {
            assert forall|a: int, b: int|
                0 <= a < b < r.identifier_groups@.len() implies r.identifier_groups@[a].0.0
                < r.identifier_groups@[b].0.0 by {
                assert(self.groups().entries_seq()[a].0.0 < self.groups().entries_seq()[b].0.0);
            }
        }
        r
    }
}

} // verus!
