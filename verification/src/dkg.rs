//! Distributed key generation: dealers and the share aggregator.
//!
//! Every dealer commits to a fresh polynomial and hands each vote its
//! evaluation. The aggregator verifies each dealing against its
//! commitment, and sums the accepted dealings — commitments
//! coefficient-wise, shares vote-wise — into one joint sharing whose
//! secret is the sum of the dealers' secrets.

use vstd::prelude::*;
use crate::curve::{fadd, scalar_add, scalar_clone, scalar_val, scalar_vals, scalar_zero};
use crate::ids::VoteID;
use crate::poly::{
    vss_holds,
    commitment_hash_of, pc_add, poly_eval, validate_verifiable_secret_share,
    AffinePolynomialCommitment, PolynomialCommitment, H256,
};

verus! {

#[derive(Clone, Copy, Debug, PartialEq, Eq)]
pub enum DkgError {
    /// The dealing does not carry one share per vote.
    IncorrectLength,
    /// Some share does not lie on the committed polynomial.
    InconsistentSecretShare,
    /// The hash names no validated dealing.
    UnknownCommitment,
}

/// Every listed share lies on the committed polynomial: for each index
/// `k`, the polynomial at the vote's evaluation point gives the share.
pub open spec fn shares_on_poly(coeffs: Seq<nat>, ids: Seq<VoteID>, vals: Seq<k256::Scalar>) -> bool {
    forall|k: int|
        0 <= k < ids.len() ==> poly_eval(coeffs, (#[trigger] ids[k]).0 as nat) == scalar_val(
            vals[k],
        )
}

/// The joint sharing that aggregation produces: one commitment and one
/// share per vote.
pub struct VerifiableSecretShares {
    pub commitment: PolynomialCommitment,
    pub shares: Vec<(VoteID, k256::Scalar)>,
}

/// Collects dealings for a fixed ordered set of votes, validates them,
/// and sums the accepted ones into one joint sharing.
pub struct ShareAggregator {
    vote_ids: Vec<VoteID>,
    secret_shares: Vec<(H256, PolynomialCommitment, Vec<k256::Scalar>)>,
    aggregated_shares: Vec<k256::Scalar>,
    aggregated_commitment: PolynomialCommitment,
    accepted_commitments: Vec<H256>,
}

impl ShareAggregator {
    pub closed spec fn vote_ids_seq(&self) -> Seq<VoteID> {
        self.vote_ids@
    }

    /// The running coefficient-wise sum of the accepted commitments.
    pub closed spec fn agg_logs(&self) -> Seq<nat> {
        self.aggregated_commitment.logs()
    }

    /// The running vote-wise sums of the accepted shares.
    pub closed spec fn agg_shares(&self) -> Seq<nat> {
        scalar_vals(self.aggregated_shares@)
    }

    /// Whether a validated dealing is stored under this hash.
    pub closed spec fn stored(&self, h: Seq<u8>) -> bool {
        exists|i: int| 0 <= i < self.secret_shares@.len() && self.secret_shares@[i].0@ == h
    }

    pub closed spec fn store_index(&self, h: Seq<u8>) -> int {
        choose|i: int| 0 <= i < self.secret_shares@.len() && self.secret_shares@[i].0@ == h
    }

    /// The committed polynomial of the dealing stored under this hash.
    pub closed spec fn stored_pc_logs(&self, h: Seq<u8>) -> Seq<nat> {
        self.secret_shares@[self.store_index(h)].1.logs()
    }

    /// The per-vote shares of the dealing stored under this hash.
    pub closed spec fn stored_share_vals(&self, h: Seq<u8>) -> Seq<nat> {
        scalar_vals(self.secret_shares@[self.store_index(h)].2@)
    }

    /// Whether the dealing under this hash has been folded into the sums.
    pub closed spec fn accepted(&self, h: Seq<u8>) -> bool {
        exists|i: int|
            0 <= i < self.accepted_commitments@.len() && self.accepted_commitments@[i]@ == h
    }

    pub closed spec fn well_formed(&self) -> bool {
        &&& self.aggregated_shares@.len() == self.vote_ids@.len()
        &&& forall|i: int|
            0 <= i < self.secret_shares@.len() ==> shares_on_poly(
                (#[trigger] self.secret_shares@[i]).1.logs(),
                self.vote_ids@,
                self.secret_shares@[i].2@,
            )
        &&& forall|k: int|
            0 <= k < self.vote_ids@.len() ==> poly_eval(
                self.agg_logs(),
                (#[trigger] self.vote_ids@[k]).0 as nat,
            ) == self.agg_shares()[k]
        &&& forall|i: int, j: int|
            0 <= i < j < self.secret_shares@.len() ==> self.secret_shares@[i].0@
                != self.secret_shares@[j].0@
        &&& forall|i: int|
            0 <= i < self.secret_shares@.len() ==> (#[trigger] self.secret_shares@[i]).2@.len()
                == self.vote_ids@.len()
        &&& forall|i: int, j: int|
            0 <= i < j < self.accepted_commitments@.len() ==> self.accepted_commitments@[i]@
                != self.accepted_commitments@[j]@
        &&& forall|i: int|
            0 <= i < self.accepted_commitments@.len() ==> self.stored(
                #[trigger] self.accepted_commitments@[i]@,
            )
    }

    /// An aggregator for the given votes, with nothing dealt yet: the
    /// sums start at the empty commitment and the all-zero share vector.
    pub fn new(vote_ids: Vec<VoteID>) -> (r: ShareAggregator)
        ensures
            r.well_formed(),
            r.vote_ids_seq() == vote_ids@,
            r.agg_logs().len() == 0,
            r.agg_shares().len() == vote_ids@.len(),
            forall|k: int| 0 <= k < vote_ids@.len() ==> r.agg_shares()[k] == 0,
            forall|h: Seq<u8>| !r.stored(h) && !r.accepted(h),
    {
        let mut zeros: Vec<k256::Scalar> = Vec::new();
        let mut i: usize = 0;
        while i < vote_ids.len()
            invariant
                0 <= i <= vote_ids@.len(),
                zeros@.len() == i,
                forall|k: int| 0 <= k < i ==> scalar_val(#[trigger] zeros@[k]) == 0,
            decreases vote_ids@.len() - i,
        {
            zeros.push(scalar_zero());
            i = i + 1;
        }
        ShareAggregator {
            vote_ids,
            secret_shares: Vec::new(),
            aggregated_shares: zeros,
            aggregated_commitment: PolynomialCommitment::new(Vec::new()),
            accepted_commitments: Vec::new(),
        }
    }

    /// Validates a dealing against its commitment and stores it under the
    /// commitment's hash. Succeeds exactly when the dealing carries one
    /// share per vote and every share lies on the committed polynomial.
    /// The running sums do not change; a dealing of the same hash is
    /// overwritten (same content, barring collisions).
    pub fn receive_secret_share(
        &mut self,
        commitment: AffinePolynomialCommitment,
        secret_shares: Vec<k256::Scalar>,
    ) -> (r: Result<(), DkgError>)
        requires
            old(self).well_formed(),
        ensures
            final(self).well_formed(),
            r is Ok <==> secret_shares@.len() == old(self).vote_ids_seq().len() && shares_on_poly(
                commitment.logs(),
                old(self).vote_ids_seq(),
                secret_shares@,
            ),
            r == Result::<(), DkgError>::Err(DkgError::IncorrectLength) <==> secret_shares@.len()
                != old(self).vote_ids_seq().len(),
            r == Result::<(), DkgError>::Err(DkgError::InconsistentSecretShare)
                <==> secret_shares@.len() == old(self).vote_ids_seq().len() && !shares_on_poly(
                commitment.logs(),
                old(self).vote_ids_seq(),
                secret_shares@,
            ),
            r is Ok ==> {
                &&& final(self).stored(commitment_hash_of(commitment.logs()))
                &&& final(self).stored_pc_logs(commitment_hash_of(commitment.logs()))
                    == commitment.logs()
                &&& final(self).stored_share_vals(commitment_hash_of(commitment.logs()))
                    == scalar_vals(secret_shares@)
            },
            r is Err ==> *final(self) == *old(self),
            final(self).vote_ids_seq() == old(self).vote_ids_seq(),
            final(self).agg_logs() == old(self).agg_logs(),
            final(self).agg_shares() == old(self).agg_shares(),
            forall|h2: Seq<u8>| final(self).accepted(h2) == old(self).accepted(h2),
            forall|h2: Seq<u8>|
                h2 != commitment_hash_of(commitment.logs()) ==> (#[trigger] final(self).stored(h2))
                    == old(self).stored(h2),
    {
        let hash = commitment.hash();
        let pc = commitment.to_projective();

        if self.vote_ids.len() != secret_shares.len() {
            return Err(DkgError::IncorrectLength);
        }

        let mut pairs: Vec<(VoteID, k256::Scalar)> = Vec::new();
        let mut i: usize = 0;
        while i < self.vote_ids.len()
            invariant
                0 <= i <= self.vote_ids@.len(),
                secret_shares@.len() == self.vote_ids@.len(),
                pairs@.len() == i,
                forall|k: int|
                    0 <= k < i ==> (#[trigger] pairs@[k]).0 == self.vote_ids@[k] && scalar_val(
                        pairs@[k].1,
                    ) == scalar_val(secret_shares@[k]),
            decreases self.vote_ids@.len() - i,
        {
            pairs.push((self.vote_ids[i], scalar_clone(&secret_shares[i])));
            i = i + 1;
        }

        let valid = validate_verifiable_secret_share(&pc, &pairs);
        proof {
            if vss_holds(pc.logs(), pairs@) {
                assert forall|k: int| 0 <= k < self.vote_ids@.len() implies poly_eval(
                    commitment.logs(),
                    (#[trigger] self.vote_ids@[k]).0 as nat,
                ) == scalar_val(secret_shares@[k]) by {
                    assert(poly_eval(pc.logs(), pairs@[k].0.0 as nat) == scalar_val(pairs@[k].1));
                }
            } else {
                let k = choose|k: int|
                    0 <= k < pairs@.len() && poly_eval(
                        pc.logs(),
                        (#[trigger] pairs@[k]).0.0 as nat,
                    ) != scalar_val(pairs@[k].1);
                assert(poly_eval(commitment.logs(), self.vote_ids@[k].0 as nat) != scalar_val(
                    secret_shares@[k],
                ));
                assert(!shares_on_poly(commitment.logs(), self.vote_ids@, secret_shares@));
            }
        }
        if !valid {
            return Err(DkgError::InconsistentSecretShare);
        }

        let ghost h = hash@;
        let ghost old_store = self.secret_shares@;
        let found = self.find_stored(&hash);
        let entry = (hash, pc, secret_shares);
        let ghost entry_g = entry;
        match found {
            Some(idx) => {
                self.secret_shares.set(idx, entry);
                proof {
                    assert(self.secret_shares@.len() == old_store.len());
                    assert(forall|k: int|
                        0 <= k < old_store.len() && k != idx as int
                            ==> #[trigger] self.secret_shares@[k] == old_store[k]);
                    assert(self.secret_shares@[idx as int].0@ == h);
                    assert(old_store[idx as int].0@ == h);
                    assert forall|a: int, b: int|
                        0 <= a < b < self.secret_shares@.len() implies self.secret_shares@[a].0@
                        != self.secret_shares@[b].0@ by {
                        assert(old_store[a].0@ != old_store[b].0@);
                    }
                }
            },
            None => {
                self.secret_shares.push(entry);
                proof {
                    let n = self.secret_shares@.len() - 1;
                    assert(self.secret_shares@.len() == old_store.len() + 1);
                    assert(forall|k: int|
                        0 <= k < old_store.len() ==> #[trigger] self.secret_shares@[k]
                            == old_store[k]);
                    assert(self.secret_shares@[n].0@ == h);
                    assert forall|a: int, b: int|
                        0 <= a < b < self.secret_shares@.len() implies self.secret_shares@[a].0@
                        != self.secret_shares@[b].0@ by {
                        if b < n {
                            assert(old_store[a].0@ != old_store[b].0@);
                        } else {
                            assert(old_store[a].0@ != h);
                        }
                    }
                }
            },
        }
        proof {
            assert(h == commitment_hash_of(commitment.logs()));
            lemma_store_key_unique(self, h);
            let ghost wi = if found is Some { found->0 as int } else {
                self.secret_shares@.len() - 1
            };
            assert(self.secret_shares@[wi].0@ == h);
            assert(self.store_index(h) == wi);
            assert(self.stored_pc_logs(h) == commitment.logs());
            assert(self.stored_share_vals(h) =~= scalar_vals(secret_shares@));
            // frame: other hashes keep their entries
            assert forall|h2: Seq<u8>| h2 != h implies (#[trigger] self.stored(h2)) == old(
                self,
            ).stored(h2) by {
                if self.stored(h2) {
                    let j = choose|j: int|
                        0 <= j < self.secret_shares@.len() && self.secret_shares@[j].0@ == h2;
                    assert(j != wi);
                    assert(old_store[j].0@ == h2);
                }
                if old(self).stored(h2) {
                    let j = choose|j: int| 0 <= j < old_store.len() && old_store[j].0@ == h2;
                    if found is Some && j == wi {
                        assert(old_store[j].0@ == h);
                    }
                    assert(self.secret_shares@[j].0@ == h2);
                }
            }
            assert(self.accepted_commitments@ == old(self).accepted_commitments@);
            assert forall|h2: Seq<u8>| self.accepted(h2) == old(self).accepted(h2) by {
                if self.accepted(h2) {
                    let i = choose|i: int|
                        0 <= i < self.accepted_commitments@.len()
                            && self.accepted_commitments@[i]@ == h2;
                    assert(old(self).accepted_commitments@[i]@ == h2);
                }
                if old(self).accepted(h2) {
                    let i = choose|i: int|
                        0 <= i < old(self).accepted_commitments@.len()
                            && old(self).accepted_commitments@[i]@ == h2;
                    assert(self.accepted_commitments@[i]@ == h2);
                }
            }
        }
        Ok(())
    }

    /// Folds the dealing stored under the hash into the running sums.
    /// Accepting a hash a second time changes nothing; a hash with no
    /// stored dealing is refused.
    pub fn accept_polynomial_commitment(&mut self, hash: H256) -> (r: Result<(), DkgError>)
        requires
            old(self).well_formed(),
        ensures
            final(self).well_formed(),
            r is Ok <==> old(self).stored(hash@),
            !old(self).stored(hash@) ==> r == Result::<(), DkgError>::Err(
                DkgError::UnknownCommitment,
            ) && *final(self) == *old(self),
            old(self).stored(hash@) && old(self).accepted(hash@) ==> *final(self) == *old(self),
            old(self).stored(hash@) && !old(self).accepted(hash@) ==> {
                &&& final(self).agg_logs() == pc_add(
                    old(self).agg_logs(),
                    old(self).stored_pc_logs(hash@),
                )
                &&& final(self).agg_shares().len() == old(self).agg_shares().len()
                &&& forall|k: int|
                    0 <= k < final(self).agg_shares().len() ==> #[trigger] final(self).agg_shares()[k] == fadd(
                        old(self).agg_shares()[k],
                        old(self).stored_share_vals(hash@)[k],
                    )
                &&& final(self).accepted(hash@)
            },
            final(self).vote_ids_seq() == old(self).vote_ids_seq(),
            forall|h2: Seq<u8>|
                h2 != hash@ ==> (#[trigger] final(self).accepted(h2)) == old(self).accepted(h2),
            forall|h2: Seq<u8>| (#[trigger] final(self).stored(h2)) == old(self).stored(h2),
            forall|h2: Seq<u8>|
                old(self).stored(h2) ==> (#[trigger] final(self).stored_pc_logs(h2)) == old(
                    self,
                ).stored_pc_logs(h2) && final(self).stored_share_vals(h2) == old(
                    self,
                ).stored_share_vals(h2),
    {
        let store_idx = match self.find_stored(&hash) {
            Some(i) => i,
            None => {
                return Err(DkgError::UnknownCommitment);
            },
        };

        if self.find_accepted(&hash) {
            return Ok(());
        }

        proof {
            lemma_store_key_unique(self, hash@);
        }

        let pc_sum = crate::poly::add_commitment(
            &self.aggregated_commitment,
            &self.secret_shares[store_idx].1,
        );
        self.aggregated_commitment = pc_sum;

        let ghost old_shares = scalar_vals(self.aggregated_shares@);
        let ghost agg_pc = self.aggregated_commitment;
        let mut k: usize = 0;
        while k < self.aggregated_shares.len()
            invariant
                0 <= k <= self.aggregated_shares@.len(),
                self.aggregated_shares@.len() == old_shares.len(),
                self.vote_ids == old(self).vote_ids,
                self.secret_shares == old(self).secret_shares,
                self.accepted_commitments == old(self).accepted_commitments,
                self.aggregated_commitment == agg_pc,
                agg_pc.logs() == pc_add(old(self).agg_logs(), old(self).stored_pc_logs(hash@)),
                store_idx < self.secret_shares@.len(),
                self.secret_shares@[store_idx as int].2@.len() == old_shares.len(),
                forall|m: int|
                    0 <= m < k ==> scalar_val(#[trigger] self.aggregated_shares@[m]) == fadd(
                        old_shares[m],
                        scalar_val(self.secret_shares@[store_idx as int].2@[m]),
                    ),
                forall|m: int|
                    k <= m < old_shares.len() ==> scalar_val(#[trigger] self.aggregated_shares@[m])
                        == old_shares[m],
            decreases self.aggregated_shares@.len() - k,
        {
            let summed = scalar_add(&self.aggregated_shares[k], &self.secret_shares[store_idx].2[k]);
            self.aggregated_shares.set(k, summed);
            k = k + 1;
        }

        let ghost old_accepted = self.accepted_commitments@;
        self.accepted_commitments.push(hash);
        proof {
            let n = old_accepted.len() as int;
            assert(self.accepted_commitments@[n]@ == hash@);
            assert forall|h2: Seq<u8>| h2 != hash@ implies (#[trigger] self.accepted(h2)) == old(
                self,
            ).accepted(h2) by {
                if self.accepted(h2) {
                    let i = choose|i: int|
                        0 <= i < self.accepted_commitments@.len()
                            && self.accepted_commitments@[i]@ == h2;
                    if i == n {
                        assert(self.accepted_commitments@[i]@ == hash@);
                    }
                    assert(i < n);
                    assert(old_accepted[i]@ == h2);
                }
                if old(self).accepted(h2) {
                    let i = choose|i: int|
                        0 <= i < old_accepted.len() && old_accepted[i]@ == h2;
                    assert(self.accepted_commitments@[i]@ == h2);
                }
            }
            assert forall|a: int, b: int|
                0 <= a < b < self.accepted_commitments@.len() implies self.accepted_commitments@[a]@
                != self.accepted_commitments@[b]@ by {
                if b < n {
                    assert(old_accepted[a]@ != old_accepted[b]@);
                } else {
                    assert(!old(self).accepted(hash@));
                    assert(old_accepted[a]@ == self.accepted_commitments@[a]@);
                    if old_accepted[a]@ == hash@ {
                        assert(old(self).accepted(hash@));
                    }
                }
            }
            assert(self.secret_shares@ == old(self).secret_shares@);
            assert forall|h2: Seq<u8>| (#[trigger] self.stored(h2)) == old(self).stored(h2) by {
                if self.stored(h2) {
                    let j = choose|j: int|
                        0 <= j < self.secret_shares@.len() && self.secret_shares@[j].0@ == h2;
                    assert(old(self).secret_shares@[j].0@ == h2);
                }
                if old(self).stored(h2) {
                    let j = choose|j: int|
                        0 <= j < old(self).secret_shares@.len() && old(self).secret_shares@[j].0@
                            == h2;
                    assert(self.secret_shares@[j].0@ == h2);
                }
            }
            assert forall|h2: Seq<u8>| old(self).stored(h2) implies (
            #[trigger] self.stored_pc_logs(h2)) == old(self).stored_pc_logs(h2)
                && self.stored_share_vals(h2) == old(self).stored_share_vals(h2) by {
                lemma_store_key_unique(self, h2);
                lemma_store_key_unique(old(self), h2);
                let j = old(self).store_index(h2);
                assert(old(self).secret_shares@[j].0@ == h2);
                assert(self.secret_shares@[j].0@ == h2);
                assert(self.store_index(h2) == j);
            }
            // every accepted hash still names a stored dealing
            assert forall|i: int|
                0 <= i < self.accepted_commitments@.len() implies self.stored(
                    #[trigger] self.accepted_commitments@[i]@,
                ) by {
                let n2 = old_accepted.len() as int;
                if i < n2 {
                    assert(old(self).accepted_commitments@[i]@
                        == self.accepted_commitments@[i]@);
                    assert(old(self).stored(self.accepted_commitments@[i]@));
                } else {
                    assert(self.accepted_commitments@[i]@ == hash@);
                    assert(old(self).stored(hash@));
                }
            }
        }
        proof {
            assert forall|k2: int|
                0 <= k2 < self.vote_ids@.len() implies poly_eval(
                    self.agg_logs(),
                    (#[trigger] self.vote_ids@[k2]).0 as nat,
                ) == self.agg_shares()[k2] by {
                let v = self.vote_ids@[k2].0 as nat;
                crate::laws::lemma_vss_additive(
                    old(self).agg_logs(),
                    old(self).stored_pc_logs(hash@),
                    v,
                );
                assert(poly_eval(old(self).agg_logs(), (#[trigger] old(self).vote_ids@[k2]).0
                    as nat) == old(self).agg_shares()[k2]);
                assert(shares_on_poly(
                    (#[trigger] old(self).secret_shares@[store_idx as int]).1.logs(),
                    old(self).vote_ids@,
                    old(self).secret_shares@[store_idx as int].2@,
                ));
                assert(poly_eval(old(self).stored_pc_logs(hash@), v) == old(
                    self,
                ).stored_share_vals(hash@)[k2]);
                assert(self.agg_logs() == pc_add(
                    old(self).agg_logs(),
                    old(self).stored_pc_logs(hash@),
                ));
                assert(self.agg_shares()[k2] == fadd(
                    old(self).agg_shares()[k2],
                    old(self).stored_share_vals(hash@)[k2],
                ));
            }
            assert forall|i2: int|
                0 <= i2 < self.secret_shares@.len() implies shares_on_poly(
                    (#[trigger] self.secret_shares@[i2]).1.logs(),
                    self.vote_ids@,
                    self.secret_shares@[i2].2@,
                ) by {
                assert(self.secret_shares@[i2] == old(self).secret_shares@[i2]);
                assert(shares_on_poly(
                    (#[trigger] old(self).secret_shares@[i2]).1.logs(),
                    old(self).vote_ids@,
                    old(self).secret_shares@[i2].2@,
                ));
            }
        }
        Ok(())
    }

    /// The joint sharing: the summed commitment, and per vote the summed
    /// share.
    pub fn finalize(self) -> (r: VerifiableSecretShares)
        requires
            self.well_formed(),
        ensures
            r.commitment.logs() == self.agg_logs(),
            r.shares@.len() == self.vote_ids_seq().len(),
            forall|k: int|
                0 <= k < r.shares@.len() ==> (#[trigger] r.shares@[k]).0 == self.vote_ids_seq()[k]
                    && scalar_val(r.shares@[k].1) == self.agg_shares()[k],
            // the joint sharing is itself a verifiable secret sharing
            shares_on_poly(r.commitment.logs(), self.vote_ids_seq(), r.shares@.map_values(
                |p: (VoteID, k256::Scalar)| p.1,
            )),
    {
        let ShareAggregator { vote_ids, aggregated_shares, aggregated_commitment, .. } = self;
        let mut shares: Vec<(VoteID, k256::Scalar)> = Vec::new();
        let mut i: usize = 0;
        while i < vote_ids.len()
            invariant
                0 <= i <= vote_ids@.len(),
                aggregated_shares@.len() == vote_ids@.len(),
                shares@.len() == i,
                forall|k: int|
                    0 <= k < i ==> (#[trigger] shares@[k]).0 == vote_ids@[k] && scalar_val(
                        shares@[k].1,
                    ) == scalar_val(aggregated_shares@[k]),
            decreases vote_ids@.len() - i,
        {
            shares.push((vote_ids[i], scalar_clone(&aggregated_shares[i])));
            i = i + 1;
        }
        VerifiableSecretShares { commitment: aggregated_commitment, shares }
    }

    /// The index of the dealing stored under the hash, if any.
    fn find_stored(&self, hash: &H256) -> (r: Option<usize>)
        requires
            self.well_formed(),
        ensures
            r is Some <==> self.stored(hash@),
            r is Some ==> r->0 < self.secret_shares@.len() && self.secret_shares@[r->0 as int].0@
                == hash@,
    {
        let mut i: usize = 0;
        while i < self.secret_shares.len()
            invariant
                0 <= i <= self.secret_shares@.len(),
                forall|k: int| 0 <= k < i ==> (#[trigger] self.secret_shares@[k]).0@ != hash@,
            decreases self.secret_shares@.len() - i,
        {
            if self.secret_shares[i].0.eq_hash(hash) {
                return Some(i);
            }
            i = i + 1;
        }
        None
    }

    /// Whether the hash has already been accepted.
    fn find_accepted(&self, hash: &H256) -> (r: bool)
        ensures
            r <==> self.accepted(hash@),
    {
        let mut i: usize = 0;
        while i < self.accepted_commitments.len()
            invariant
                0 <= i <= self.accepted_commitments@.len(),
                forall|k: int| 0 <= k < i ==> (#[trigger] self.accepted_commitments@[k])@ != hash@,
            decreases self.accepted_commitments@.len() - i,
        {
            if self.accepted_commitments[i].eq_hash(hash) {
                return true;
            }
            i = i + 1;
        }
        false
    }
}

/// With unique store keys, any index holding the hash is the one the
/// store lookup denotes.
proof fn lemma_store_key_unique(agg: &ShareAggregator, h: Seq<u8>)
    requires
        forall|i: int, j: int|
            0 <= i < j < agg.secret_shares@.len() ==> agg.secret_shares@[i].0@
                != agg.secret_shares@[j].0@,
        agg.stored(h),
    ensures
        forall|i: int|
            0 <= i < agg.secret_shares@.len() && agg.secret_shares@[i].0@ == h ==> i
                == agg.store_index(h),
{
    let si = agg.store_index(h);
    assert(0 <= si < agg.secret_shares@.len() && agg.secret_shares@[si].0@ == h);
    assert forall|i: int|
        0 <= i < agg.secret_shares@.len() && agg.secret_shares@[i].0@ == h implies i == si by {
        if i < si {
            assert(agg.secret_shares@[i].0@ != agg.secret_shares@[si].0@);
        } else if si < i {
            assert(agg.secret_shares@[si].0@ != agg.secret_shares@[i].0@);
        }
    }
}

} // verus!
