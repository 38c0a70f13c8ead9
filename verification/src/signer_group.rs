//! The epoch's mutable signer group.
//!
//! The committee holds many shares, a few per member. Rather than sign
//! with one Lagrange coefficient per share, the group picks exactly the
//! threshold number of shares — walking the valid members in order,
//! filling each member's votes contiguously — and collapses each
//! member's picked verifying shares into one aggregated share: the
//! Lagrange-weighted sum, at the secret's evaluation point, of the
//! picked shares. Members then sign under a single identifier with an
//! outer coefficient of one.

use vstd::prelude::*;
use crate::curve::{
    el_add, el_clone, el_identity, el_mul, fadd, fmul, point_log, scalar_val,
};
use crate::frost_context::FrostPubKeyContext;
use crate::frost_error::FrostError;
use crate::ids::NodeID;
use crate::interpolate::{lagrange_coeff, lagrange_coefficient_exec};
use crate::sign_task::FrostSignTask;

verus! {

/// How many shares the given members hold in all.
pub open spec fn avail_shares(ctx: FrostPubKeyContext, valid: Seq<NodeID>) -> int
    decreases valid.len(),
{
    if valid.len() == 0 {
        0
    } else {
        avail_shares(ctx, valid.drop_last()) + ctx.identifiers_of(valid.last()).len()
    }
}

/// The deterministic pick: walk the members in order, take each
/// member's identifiers until `rest` shares are collected.
pub open spec fn picked_groups(ctx: FrostPubKeyContext, valid: Seq<NodeID>, rest: int) -> Seq<
    (NodeID, Seq<u64>),
>
    decreases valid.len(),
{
    if valid.len() == 0 || rest <= 0 {
        Seq::empty()
    } else {
        let ids = ctx.identifiers_of(valid.first());
        let taken = if rest <= ids.len() { rest } else { ids.len() as int };
        seq![(valid.first(), ids.take(taken))] + picked_groups(
            ctx,
            valid.drop_first(),
            rest - taken,
        )
    }
}

/// One member's aggregated verifying share: the Lagrange-weighted sum,
/// at evaluation point zero with respect to the index set `xs`, of the
/// member's picked verifying shares.
pub open spec fn node_agg(ctx: FrostPubKeyContext, xs: Seq<nat>, ids: Seq<u64>) -> nat
    decreases ids.len(),
{
    if ids.len() == 0 {
        0
    } else {
        fadd(
            node_agg(ctx, xs, ids.drop_last()),
            fmul(lagrange_coeff(xs, 0, ids.last() as nat), ctx.share_log(ids.last() as nat)),
        )
    }
}

/// The concatenated identifiers of the picked groups.
pub open spec fn flatten_ids(groups: Seq<(NodeID, Seq<u64>)>) -> Seq<u64>
    decreases groups.len(),
{
    if groups.len() == 0 {
        Seq::empty()
    } else {
        flatten_ids(groups.drop_last()) + groups.last().1
    }
}

pub struct FrostSignerGroup {
    /// The epoch's public key context.
    pub context: FrostPubKeyContext,
    valid_nodes: Vec<NodeID>,
    aggregated_verifying_shares: Vec<(u64, k256::ProjectivePoint)>,
    lagrange_coefficients: Vec<(NodeID, Vec<k256::Scalar>)>,
    cached_total_shares: Option<usize>,
}

impl FrostSignerGroup {
    pub closed spec fn valid(&self) -> Seq<NodeID> {
        self.valid_nodes@
    }

    pub open spec fn contains_spec(&self, id: NodeID) -> bool {
        exists|i: int| 0 <= i < self.valid().len() && (#[trigger] self.valid()[i]) == id
    }

    pub closed spec fn agg_model(&self) -> Seq<(u64, nat)> {
        self.aggregated_verifying_shares@.map_values(
            |p: (u64, k256::ProjectivePoint)| (p.0, point_log(p.1)),
        )
    }

    pub closed spec fn agg_raw(&self) -> Seq<(u64, k256::ProjectivePoint)> {
        self.aggregated_verifying_shares@
    }

    pub closed spec fn lagrange(&self) -> Seq<(NodeID, Vec<k256::Scalar>)> {
        self.lagrange_coefficients@
    }

    pub closed spec fn cached(&self) -> Option<usize> {
        self.cached_total_shares
    }

    pub closed spec fn ctx(&self) -> FrostPubKeyContext {
        self.context
    }

    /// Whether an aggregated verifying share is listed under the
    /// identifier.
    pub open spec fn has_aggregated(&self, ident: u64) -> bool {
        exists|a: int|
            0 <= a < self.agg_model().len() && (#[trigger] self.agg_model()[a]).0 == ident
    }

    /// The commitment entry belongs to a valid member with an
    /// aggregated share and carries exactly that member's pulled pair.
    pub open spec fn entry_from_pulled(
        &self,
        e: (u64, k256::ProjectivePoint, k256::ProjectivePoint),
        pulled: Seq<(NodeID, (k256::ProjectivePoint, k256::ProjectivePoint))>,
    ) -> bool {
        exists|t: int|
            0 <= t < pulled.len() && e.0 == (#[trigger] pulled[t]).0.0 as u64 && e.1 == pulled[
                t].1.0 && e.2 == pulled[t].1.1 && self.contains_spec(pulled[t].0)
                && self.has_aggregated(pulled[t].0.0 as u64)
    }

    pub open spec fn well_formed(&self) -> bool {
        &&& self.ctx().well_formed()
        &&& forall|i: int, j: int|
            0 <= i < j < self.valid().len() ==> self.valid()[i].0 < self.valid()[j].0
        &&& forall|i: int|
            0 <= i < self.valid().len() ==> self.ctx().has_node(#[trigger] self.valid()[i])
        &&& forall|i: int, j: int|
            0 <= i < j < self.agg_raw().len() ==> self.agg_raw()[i].0 != self.agg_raw()[j].0
        &&& forall|i: int, j: int|
            0 <= i < j < self.lagrange().len() ==> self.lagrange()[i].0 != self.lagrange()[j].0
        &&& forall|i: int, m: int|
            0 <= i < self.ctx().identifier_groups@.len() && 0 <= m
                < self.ctx().identifier_groups@[i].1@.len() ==> self.ctx().has_share(
                (#[trigger] self.ctx().identifier_groups@[i].1@[m]) as nat,
            ) && self.ctx().identifier_groups@[i].1@[m] <= usize::MAX as u64
    }

    /// A fresh group with no valid members and nothing aggregated.
    pub fn new(context: FrostPubKeyContext) -> (r: FrostSignerGroup)
        requires
            context.well_formed(),
            forall|i: int, m: int|
                0 <= i < context.identifier_groups@.len() && 0 <= m
                    < context.identifier_groups@[i].1@.len() ==> context.has_share(
                    (#[trigger] context.identifier_groups@[i].1@[m]) as nat,
                ) && context.identifier_groups@[i].1@[m] <= usize::MAX as u64,
        ensures
            r.well_formed(),
            r.valid().len() == 0,
            r.ctx() == context,
            r.cached() is None,
    {
        FrostSignerGroup {
            context,
            valid_nodes: Vec::new(),
            aggregated_verifying_shares: Vec::new(),
            lagrange_coefficients: Vec::new(),
            cached_total_shares: None,
        }
    }

    /// The epoch this group signs for.
    pub fn epoch_value(&self) -> (r: u64)
        ensures
            r == self.ctx().epoch,
    {
        self.context.epoch
    }

    pub fn contains(&self, id: &NodeID) -> (r: bool)
        ensures
            r == self.contains_spec(*id),
    {
        let mut i: usize = 0;
        while i < self.valid_nodes.len()
            invariant
                0 <= i <= self.valid().len(),
                forall|k: int| 0 <= k < i ==> (#[trigger] self.valid()[k]).0 != id.0,
            decreases self.valid().len() - i,
        {
            if self.valid_nodes[i].0 == id.0 {
                proof {
                    assert((#[trigger] self.valid()[i as int]) == *id);
                }
                return true;
            }
            i = i + 1;
        }
        proof {
            if self.contains_spec(*id) {
                let k = choose|k: int|
                    0 <= k < self.valid().len() && (#[trigger] self.valid()[k]) == *id;
                assert(self.valid()[k].0 != id.0);
            }
        }
        false
    }

    /// Fails fast when a previous aggregation found the remaining
    /// members short of the threshold.
    pub fn check_enough_shares(&self) -> (r: Result<(), FrostError>)
        ensures
            r is Ok <==> (self.cached() matches Some(s) ==> s
                >= self.ctx().num_signing_shares),
            r is Err ==> r == Result::<(), FrostError>::Err(FrostError::NotEnoughSigningShares),
    {
        match self.cached_total_shares {
            Some(shares) => {
                if shares < self.context.num_signing_shares {
                    Err(FrostError::NotEnoughSigningShares)
                } else {
                    Ok(())
                }
            },
            None => Ok(()),
        }
    }

    pub fn valid_nodes(&self) -> (r: Vec<NodeID>)
        ensures
            r@ == self.valid(),
    {
        let mut out: Vec<NodeID> = Vec::new();
        let mut i: usize = 0;
        while i < self.valid_nodes.len()
            invariant
                0 <= i <= self.valid().len(),
                out@ == self.valid().take(i as int),
            decreases self.valid().len() - i,
        {
            out.push(self.valid_nodes[i]);
            proof {
                assert(out@ =~= self.valid().take(i + 1));
            }
            i = i + 1;
        }
        proof {
            assert(self.valid().take(self.valid().len() as int) =~= self.valid());
        }
        out
    }

    /// Registers a member before the epoch starts. The aggregated shares
    /// are refreshed lazily, when the first round starts.
    pub fn insert_node(&mut self, id: &NodeID) -> (r: Result<(), FrostError>)
        requires
            old(self).well_formed(),
        ensures
            final(self).well_formed(),
            r is Ok <==> old(self).ctx().has_node(*id),
            r is Err ==> r == Result::<(), FrostError>::Err(FrostError::UnknownNodeID)
                && *final(self) == *old(self),
            r is Ok ==> final(self).contains_spec(*id),
            forall|n: NodeID|
                n != *id ==> (#[trigger] final(self).contains_spec(n)) == old(self).contains_spec(
                    n,
                ),
            final(self).ctx() == old(self).ctx(),
            final(self).cached() == old(self).cached(),
    {
        let mut known: bool = false;
        let mut i: usize = 0;
        while i < self.context.identifier_groups.len()
            invariant
                0 <= i <= self.context.identifier_groups@.len(),
                *self == *old(self),
                known ==> self.context.has_node(*id),
                !known ==> forall|k: int|
                    0 <= k < i ==> (#[trigger] self.context.identifier_groups@[k]).0 != *id,
            decreases self.context.identifier_groups@.len() - i,
        {
            if self.context.identifier_groups[i].0.0 == id.0 {
                known = true;
                proof {
                    assert((#[trigger] self.context.identifier_groups@[i as int]).0 == *id);
                }
            }
            i = i + 1;
        }
        if !known {
            proof {
                if self.context.has_node(*id) {
                    let k = choose|k: int|
                        0 <= k < self.context.identifier_groups@.len()
                            && (#[trigger] self.context.identifier_groups@[k]).0 == *id;
                }
            }
            return Err(FrostError::UnknownNodeID);
        }

        // insert in sorted position, without duplicating
        let ghost old_valid = self.valid_nodes@;
        let mut pos: usize = 0;
        while pos < self.valid_nodes.len() && self.valid_nodes[pos].0 < id.0
            invariant
                0 <= pos <= self.valid().len(),
                old_valid == self.valid_nodes@,
                old(self).well_formed(),
                *self == *old(self),
                forall|k: int| 0 <= k < pos ==> (#[trigger] self.valid()[k]).0 < id.0,
            decreases self.valid().len() - pos,
        {
            pos = pos + 1;
        }
        if pos < self.valid_nodes.len() && self.valid_nodes[pos].0 == id.0 {
            proof {
                assert((#[trigger] self.valid()[pos as int]) == *id);
            }
            return Ok(());
        }
        proof {
            assert(pos == old_valid.len() || old_valid[pos as int].0 > id.0);
        }
        self.valid_nodes.insert(pos, *id);
        proof {
            let p = pos as int;
            assert(self.valid_nodes@ == old_valid.insert(p, *id));
            assert(self.valid_nodes@[p] == *id);
            assert forall|a: int, b: int|
                0 <= a < b < self.valid().len() implies self.valid()[a].0 < self.valid()[b].0 by {
                if b > p {
                    assert(self.valid()[b] == old_valid[b - 1]);
                }
                if a > p {
                    assert(self.valid()[a] == old_valid[a - 1]);
                }
                if a < p {
                    assert(self.valid()[a] == old_valid[a]);
                }
                if b < p {
                    assert(self.valid()[b] == old_valid[b]);
                }
                if b == p && a < p {
                    assert(old_valid[a].0 < id.0);
                } else if a == p && b > p {
                    assert(old_valid[p].0 > id.0);
                    if b - 1 > p {
                        assert(old_valid[p].0 < old_valid[b - 1].0);
                    }
                }
            }
            assert forall|i2: int|
                0 <= i2 < self.valid().len() implies self.context.has_node(
                    #[trigger] self.valid()[i2],
                ) by {
                if i2 < p {
                    assert(self.valid()[i2] == old_valid[i2]);
                    assert(old(self).context.has_node(old_valid[i2]));
                } else if i2 > p {
                    assert(self.valid()[i2] == old_valid[i2 - 1]);
                    assert(old(self).context.has_node(old_valid[i2 - 1]));
                }
            }
            assert forall|n: NodeID| n != *id implies (#[trigger] self.contains_spec(n)) == old(
                self,
            ).contains_spec(n) by {
                if self.contains_spec(n) {
                    let k = choose|k: int|
                        0 <= k < self.valid().len() && (#[trigger] self.valid()[k]) == n;
                    if k < p {
                        assert(old_valid[k] == n);
                    } else if k > p {
                        assert(old_valid[k - 1] == n);
                    }
                }
                if old(self).contains_spec(n) {
                    let k = choose|k: int|
                        0 <= k < old_valid.len() && (#[trigger] old_valid[k]) == n;
                    if k < p {
                        assert(self.valid()[k] == n);
                    } else {
                        assert(self.valid()[k + 1] == n);
                    }
                }
            }
            assert(self.contains_spec(*id));
            assert(self.agg_raw() == old(self).agg_raw());
            assert forall|a: int, b: int|
                0 <= a < b < self.agg_raw().len() implies self.agg_raw()[a].0
                != self.agg_raw()[b].0 by {
                assert(old(self).agg_raw()[a].0 != old(self).agg_raw()[b].0);
            }
            assert(self.lagrange() == old(self).lagrange());
            assert forall|a: int, b: int|
                0 <= a < b < self.lagrange().len() implies self.lagrange()[a].0
                != self.lagrange()[b].0 by {
                assert(old(self).lagrange()[a].0 != old(self).lagrange()[b].0);
            }
        }
        Ok(())
    }

    /// The aggregation matches the current members: per picked member,
    /// one aggregated verifying share — the Lagrange-weighted sum of its
    /// picked shares — and the coefficient vector that produced it.
    pub open spec fn aggregation_fresh(&self) -> bool {
        let groups = picked_groups(self.ctx(), self.valid(), self.ctx().num_signing_shares as int);
        let xs = ids_nat(flatten_ids(groups));
        &&& self.agg_model().len() == groups.len()
        &&& forall|k: int|
            0 <= k < groups.len() ==> (#[trigger] self.agg_model()[k]).0 == (
            #[trigger] groups[k]).0.0 as u64 && self.agg_model()[k].1 == node_agg(
                self.ctx(),
                xs,
                groups[k].1,
            )
        &&& self.lagrange().len() == groups.len()
        &&& forall|k: int|
            0 <= k < groups.len() ==> (#[trigger] self.lagrange()[k]).0 == groups[k].0
                && self.lagrange()[k].1@.len() == groups[k].1.len()
        &&& forall|k: int, j: int|
            0 <= k < groups.len() && 0 <= j < groups[k].1.len() ==> scalar_val(
                (#[trigger] self.lagrange()[k]).1@[j],
            ) == lagrange_coeff(xs, 0, (#[trigger] groups[k].1[j]) as nat)
    }

    /// The deterministic pick of exactly `num` shares: walks the valid
    /// members in order, filling each member's identifiers contiguously.
    /// Succeeds exactly when the members hold at least `num` shares in
    /// all; fails with the shortfall otherwise.
    #[verifier::rlimit(60)]
    fn get_exact_size_identifier_groups(&self, num: usize) -> (r: Result<
        Vec<(NodeID, Vec<u64>)>,
        usize,
    >)
        requires
            self.well_formed(),
        ensures
            r is Ok <==> avail_shares(self.ctx(), self.valid()) >= num,
            r matches Ok(g) ==> {
                &&& groups_model(g@) == picked_groups(self.ctx(), self.valid(), num as int)
                &&& forall|a: int, b: int| 0 <= a < b < g@.len() ==> g@[a].0.0 < g@[b].0.0
                &&& forall|k: int, j: int|
                    0 <= k < g@.len() && 0 <= j < g@[k].1@.len() ==> self.ctx().has_share(
                        (#[trigger] g@[k].1@[j]) as nat,
                    ) && g@[k].1@[j] <= usize::MAX as u64
            },
            r matches Err(rest) ==> rest == num - avail_shares(self.ctx(), self.valid()),
    {
        let ghost ctx = self.ctx();
        let ghost valid = self.valid();
        let ghost n = num as int;
        let mut out: Vec<(NodeID, Vec<u64>)> = Vec::new();
        if num == 0 {
            proof {
                assert(picked_groups(ctx, valid, 0) =~= Seq::<(NodeID, Seq<u64>)>::empty());
                assert(groups_model(out@) =~= picked_groups(ctx, valid, 0));
                lemma_avail_nonneg(ctx, valid);
            }
            return Ok(out);
        }
        let mut rest: usize = num;
        let mut i: usize = 0;
        proof {
            assert(valid.skip(0) =~= valid);
        }
        while i < self.valid_nodes.len()
            invariant
                0 <= i <= valid.len(),
                self.well_formed(),
                ctx == self.ctx(),
                valid == self.valid(),
                n == num as int,
                0 < rest <= num,
                picked_groups(ctx, valid, n) =~= groups_model(out@) + picked_groups(
                    ctx,
                    valid.skip(i as int),
                    rest as int,
                ),
                num - rest == avail_shares(ctx, valid.take(i as int)),
                forall|a: int, b: int| 0 <= a < b < out@.len() ==> out@[a].0.0 < out@[b].0.0,
                forall|a: int| 0 <= a < out@.len() && i < valid.len() ==> (#[trigger] out@[a]).0.0
                    < valid[i as int].0,
                forall|k: int, j: int|
                    0 <= k < out@.len() && 0 <= j < out@[k].1@.len() ==> ctx.has_share(
                        (#[trigger] out@[k].1@[j]) as nat,
                    ) && out@[k].1@[j] <= usize::MAX as u64,
            decreases valid.len() - i,
        {
            let node = self.valid_nodes[i];
            let gi = self.find_group_index(&node);
            let ids = &self.context.identifier_groups[gi].1;
            let taken = if rest <= ids.len() {
                rest
            } else {
                ids.len()
            };
            let mut prefix: Vec<u64> = Vec::new();
            let mut j: usize = 0;
            while j < taken
                invariant
                    0 <= j <= taken,
                    taken <= ids@.len(),
                    self.well_formed(),
                    ctx == self.ctx(),
                    gi < self.context.identifier_groups@.len(),
                    ids == &self.context.identifier_groups@[gi as int].1,
                    prefix@ == ids@.take(j as int),
                decreases taken - j,
            {
                prefix.push(ids[j]);
                proof {
                    assert(prefix@ =~= ids@.take(j + 1));
                }
                j = j + 1;
            }
            let ghost old_out = out@;
            let ghost node_ids = ctx.identifiers_of(node);
            proof {
                assert(node_ids == ids@);
                assert(prefix@ == node_ids.take(taken as int));
                // picked identifiers inherit the context facts
                assert forall|j2: int|
                    0 <= j2 < prefix@.len() implies ctx.has_share((#[trigger] prefix@[j2]) as nat)
                    && prefix@[j2] <= usize::MAX as u64 by {
                    assert(prefix@[j2] == self.context.identifier_groups@[gi as int].1@[j2]);
                }
            }
            out.push((node, prefix));
            let old_rest = rest;
            rest = rest - taken;
            proof {
                // unfold the pick one step
                let suffix = valid.skip(i as int);
                assert(suffix.first() == valid[i as int]);
                assert(suffix.drop_first() =~= valid.skip(i + 1));
                assert(picked_groups(ctx, suffix, old_rest as int) =~= seq![
                    (node, node_ids.take(taken as int)),
                ] + picked_groups(ctx, valid.skip(i + 1), old_rest - taken));
                assert(groups_model(out@) =~= groups_model(old_out) + seq![
                    (node, node_ids.take(taken as int)),
                ]);
                assert(picked_groups(ctx, valid, n) =~= groups_model(out@) + picked_groups(
                    ctx,
                    valid.skip(i + 1),
                    rest as int,
                ));
                lemma_avail_take_step(ctx, valid, i as int);
            }
            if rest == 0 {
                proof {
                    assert(picked_groups(ctx, valid.skip(i + 1), 0) =~= Seq::<
                        (NodeID, Seq<u64>),
                    >::empty());
                    assert(picked_groups(ctx, valid, n) =~= groups_model(out@));
                    assert(num - 0 <= avail_shares(ctx, valid.take(i + 1)));
                    lemma_avail_take_mono(ctx, valid, i + 1);
                    assert forall|a: int, b: int|
                        0 <= a < b < out@.len() implies out@[a].0.0 < out@[b].0.0 by {
                        if b == out@.len() - 1 {
                            assert((#[trigger] old_out[a]).0.0 < valid[i as int].0);
                        } else {
                            assert(old_out[a].0.0 < old_out[b].0.0);
                        }
                    }
                    assert forall|k: int, j2: int|
                        0 <= k < out@.len() && 0 <= j2 < out@[k].1@.len() implies ctx.has_share(
                            (#[trigger] out@[k].1@[j2]) as nat,
                        ) && out@[k].1@[j2] <= usize::MAX as u64 by {
                        if k < out@.len() - 1 {
                            assert(ctx.has_share((#[trigger] old_out[k].1@[j2]) as nat)
                                && old_out[k].1@[j2] <= usize::MAX as u64);
                        } else {
                            assert(out@[k].1@ == prefix@);
                            assert(ctx.has_share((prefix@[j2]) as nat) && prefix@[j2]
                                <= usize::MAX as u64);
                        }
                    }
                }
                proof {
                    assert(groups_model(out@) == picked_groups(
                        self.ctx(),
                        self.valid(),
                        num as int,
                    ));
                }
                return Ok(out);
            }
            proof {
                assert(taken == ids@.len());
                assert(num - rest == avail_shares(ctx, valid.take(i + 1)));
                assert forall|a: int|
                    0 <= a < out@.len() && i + 1 < valid.len() implies (#[trigger] out@[a]).0.0
                    < valid[i + 1].0 by {
                    if a < old_out.len() {
                        assert(old_out[a].0.0 < valid[i as int].0);
                        assert(valid[i as int].0 < valid[i + 1].0);
                    } else {
                        assert(out@[a].0 == node);
                        assert(valid[i as int].0 < valid[i + 1].0);
                    }
                }
                assert forall|a: int, b: int|
                    0 <= a < b < out@.len() implies out@[a].0.0 < out@[b].0.0 by {
                    if b == out@.len() - 1 {
                        assert((#[trigger] old_out[a]).0.0 < valid[i as int].0);
                    } else {
                        assert(old_out[a].0.0 < old_out[b].0.0);
                    }
                }
                assert forall|k2: int, j2: int|
                    0 <= k2 < out@.len() && 0 <= j2 < out@[k2].1@.len() implies ctx.has_share(
                        (#[trigger] out@[k2].1@[j2]) as nat,
                    ) && out@[k2].1@[j2] <= usize::MAX as u64 by {
                    if k2 < out@.len() - 1 {
                        assert(ctx.has_share((#[trigger] old_out[k2].1@[j2]) as nat)
                            && old_out[k2].1@[j2] <= usize::MAX as u64);
                    } else {
                        assert(out@[k2].1@ == prefix@);
                        assert(ctx.has_share((prefix@[j2]) as nat) && prefix@[j2]
                            <= usize::MAX as u64);
                    }
                }
            }
            i = i + 1;
        }
        proof {
            assert(valid.take(valid.len() as int) =~= valid);
            assert(avail_shares(ctx, valid) == num - rest);
        }
        Err(rest)
    }

    /// The index of a member's entry in the context's identifier table.
    fn find_group_index(&self, node: &NodeID) -> (r: usize)
        requires
            self.well_formed(),
            self.ctx().has_node(*node),
        ensures
            r < self.ctx().identifier_groups@.len(),
            self.ctx().identifier_groups@[r as int].0 == *node,
            self.ctx().identifiers_of(*node) == self.ctx().identifier_groups@[r as int].1@,
    {
        let mut i: usize = 0;
        while i < self.context.identifier_groups.len()
            invariant
                0 <= i <= self.context.identifier_groups@.len(),
                self.well_formed(),
                self.ctx().has_node(*node),
                forall|k: int|
                    0 <= k < i ==> (#[trigger] self.context.identifier_groups@[k]).0 != *node,
            decreases self.context.identifier_groups@.len() - i,
        {
            if self.context.identifier_groups[i].0.0 == node.0 {
                proof {
                    assert((#[trigger] self.context.identifier_groups@[i as int]).0 == *node);
                    let j = self.ctx().node_index(*node);
                    assert(self.context.identifier_groups@[j].0 == *node);
                    if j != i as int {
                        assert(self.context.identifier_groups@[j].0.0 != node.0 || j == i as int)
                        by {
                            if j < i as int {
                                assert(self.context.identifier_groups@[j].0.0
                                    < self.context.identifier_groups@[i as int].0.0);
                            } else if j > i as int {
                                assert(self.context.identifier_groups@[i as int].0.0
                                    < self.context.identifier_groups@[j].0.0);
                            }
                        }
                        assert(false);
                    }
                }
                return i;
            }
            i = i + 1;
        }
        proof {
            let j = self.ctx().node_index(*node);
            assert(self.context.identifier_groups@[j].0 == *node);
            assert(false);
        }
        0
    }

    /// Recomputes the aggregated verifying shares for the current valid
    /// members. On a shortfall the available total is cached and the
    /// aggregation is left as it was.
    pub fn update_aggregated_verifying_shares(&mut self) -> (r: Result<(), FrostError>)
        requires
            old(self).well_formed(),
        ensures
            final(self).well_formed(),
            final(self).ctx() == old(self).ctx(),
            final(self).valid() == old(self).valid(),
            r is Ok <==> avail_shares(old(self).ctx(), old(self).valid()) >= old(
                self,
            ).ctx().num_signing_shares,
            r is Err ==> r == Result::<(), FrostError>::Err(FrostError::NotEnoughSigningShares)
                && (final(self).cached() matches Some(c) && c == avail_shares(
                old(self).ctx(),
                old(self).valid(),
            )) && final(self).agg_raw() == old(self).agg_raw() && final(self).lagrange() == old(
                self,
            ).lagrange(),
            r is Ok ==> final(self).aggregation_fresh() && final(self).cached() == old(
                self,
            ).cached(),
    {
        let ghost ctx = self.ctx();
        let ghost valid = self.valid();
        let num = self.context.num_signing_shares;
        let groups = match self.get_exact_size_identifier_groups(num) {
            Ok(g) => g,
            Err(deficit) => {
                proof {
                    lemma_avail_nonneg(ctx, valid);
                }
                self.cached_total_shares = Some(num - deficit);
                proof {
                    assert(self.agg_raw() == old(self).agg_raw());
                    assert forall|a: int, b: int|
                        0 <= a < b < self.agg_raw().len() implies self.agg_raw()[a].0
                        != self.agg_raw()[b].0 by {
                        assert(old(self).agg_raw()[a].0 != old(self).agg_raw()[b].0);
                    }
                    assert(self.lagrange() == old(self).lagrange());
                    assert forall|a: int, b: int|
                        0 <= a < b < self.lagrange().len() implies self.lagrange()[a].0
                        != self.lagrange()[b].0 by {
                        assert(old(self).lagrange()[a].0 != old(self).lagrange()[b].0);
                    }
                }
                return Err(FrostError::NotEnoughSigningShares);
            },
        };
        let ghost gm = groups_model(groups@);
        let ghost xs = ids_nat(flatten_ids(gm));

        // the flat list of picked identifiers
        let mut all_origin: Vec<usize> = Vec::new();
        let mut k: usize = 0;
        proof {
            assert(gm.take(0) =~= Seq::<(NodeID, Seq<u64>)>::empty());
            assert(usizes_nat(all_origin@) =~= ids_nat(
                flatten_ids(gm.take(0)),
            ));
        }
        while k < groups.len()
            invariant
                0 <= k <= groups@.len(),
                *self == *old(self),
                gm == groups_model(groups@),
                gm.len() == groups@.len(),
                forall|k2: int, j: int|
                    0 <= k2 < groups@.len() && 0 <= j < groups@[k2].1@.len() ==> (
                    #[trigger] groups@[k2].1@[j]) <= usize::MAX as u64,
                usizes_nat(all_origin@) == ids_nat(
                    flatten_ids(gm.take(k as int)),
                ),
            decreases groups@.len() - k,
        {
            let ids = &groups[k].1;
            let ghost pre_origin = all_origin@;
            let mut j: usize = 0;
            proof {
                assert(usizes_nat(all_origin@) =~= usizes_nat(pre_origin) + ids_nat(ids@.take(0)));
            }
            while j < ids.len()
                invariant
                    0 <= j <= ids@.len(),
                    ids == &groups@[k as int].1,
                    k < groups@.len(),
                    forall|j2: int|
                        0 <= j2 < ids@.len() ==> (#[trigger] ids@[j2]) <= usize::MAX as u64,
                    usizes_nat(all_origin@) == usizes_nat(pre_origin) + ids_nat(ids@.take(j as int)),
                decreases ids@.len() - j,
            {
                let ghost entry_origin = all_origin@;
                all_origin.push(ids[j] as usize);
                proof {
                    let pl = pre_origin.len() as int;
                    assert(usizes_nat(entry_origin).len() == pl + j);
                    assert(all_origin@ == entry_origin.push(ids@[j as int] as usize));
                    assert forall|x: int|
                        0 <= x < usizes_nat(all_origin@).len() implies usizes_nat(all_origin@)[x]
                        == (usizes_nat(pre_origin) + ids_nat(ids@.take(j + 1)))[x] by {
                        if x < pl + j {
                            assert(all_origin@[x] == entry_origin[x]);
                            assert(usizes_nat(all_origin@)[x] == usizes_nat(entry_origin)[x]);
                            assert(usizes_nat(entry_origin)[x] == (usizes_nat(pre_origin)
                                + ids_nat(ids@.take(j as int)))[x]);
                            if x >= pl {
                                assert(ids_nat(ids@.take(j as int))[x - pl] == ids@[x - pl] as nat);
                                assert(ids_nat(ids@.take(j + 1))[x - pl] == ids@[x - pl] as nat);
                            }
                        } else {
                            assert(all_origin@[x] == ids@[j as int] as usize);
                            assert(usizes_nat(all_origin@)[x] == (ids@[j as int] as usize) as nat);
                            assert((ids@[j as int] as usize) as nat == ids@[j as int] as nat);
                            assert(ids_nat(ids@.take(j + 1))[x - pl] == ids@[j as int] as nat);
                        }
                    }
                    assert(usizes_nat(all_origin@) =~= usizes_nat(pre_origin) + ids_nat(
                        ids@.take(j + 1),
                    ));
                }
                j = j + 1;
            }
            proof {
                assert(ids@.take(ids@.len() as int) =~= ids@);
                assert(gm.take(k + 1).drop_last() =~= gm.take(k as int));
                assert(gm.take(k + 1).last() == gm[k as int]);
                assert(gm[k as int].1 == ids@);
                assert(usizes_nat(all_origin@) =~= ids_nat(
                    flatten_ids(gm.take(k + 1)),
                ));
            }
            k = k + 1;
        }
        proof {
            assert(gm.take(gm.len() as int) =~= gm);
        }

        // per member: the Lagrange coefficients and the collapsed share
        let mut new_agg: Vec<(u64, k256::ProjectivePoint)> = Vec::new();
        let mut new_lag: Vec<(NodeID, Vec<k256::Scalar>)> = Vec::new();
        let mut k: usize = 0;
        while k < groups.len()
            invariant
                0 <= k <= groups@.len(),
                *self == *old(self),
                self.well_formed(),
                ctx == self.ctx(),
                valid == self.valid(),
                num == self.context.num_signing_shares,
                gm == groups_model(groups@),
                gm == picked_groups(ctx, valid, num as int),
                gm.len() == groups@.len(),
                xs == ids_nat(flatten_ids(gm)),
                usizes_nat(all_origin@) == xs,
                forall|k2: int, j: int|
                    0 <= k2 < groups@.len() && 0 <= j < groups@[k2].1@.len() ==> ctx.has_share(
                        (#[trigger] groups@[k2].1@[j]) as nat,
                    ) && groups@[k2].1@[j] <= usize::MAX as u64,
                new_agg@.len() == k,
                new_lag@.len() == k,
                forall|k2: int|
                    0 <= k2 < k ==> (#[trigger] new_agg@[k2]).0 == groups@[k2].0.0 as u64
                        && point_log(new_agg@[k2].1) == node_agg(ctx, xs, gm[k2].1),
                forall|k2: int|
                    0 <= k2 < k ==> (#[trigger] new_lag@[k2]).0 == groups@[k2].0
                        && new_lag@[k2].1@.len() == groups@[k2].1@.len(),
                forall|k2: int, j: int|
                    0 <= k2 < k && 0 <= j < new_lag@[k2].1@.len() ==> scalar_val(
                        (#[trigger] new_lag@[k2]).1@[j],
                    ) == lagrange_coeff(xs, 0, (#[trigger] groups@[k2].1@[j]) as nat),
            decreases groups@.len() - k,
        {
            let ids = &groups[k].1;
            let mut lambdas: Vec<k256::Scalar> = Vec::new();
            let mut acc = el_identity();
            let mut j: usize = 0;
            proof {
                assert(ids@.take(0) =~= Seq::<u64>::empty());
            }
            while j < ids.len()
                invariant
                    0 <= j <= ids@.len(),
                    self.well_formed(),
                    ctx == self.ctx(),
                    k < groups@.len(),
                    gm == groups_model(groups@),
                    gm.len() == groups@.len(),
                    ids == &groups@[k as int].1,
                    gm[k as int].1 == ids@,
                    usizes_nat(all_origin@) == xs,
                    forall|j2: int|
                        0 <= j2 < ids@.len() ==> ctx.has_share((#[trigger] ids@[j2]) as nat)
                            && ids@[j2] <= usize::MAX as u64,
                    lambdas@.len() == j,
                    forall|j2: int|
                        0 <= j2 < j ==> scalar_val(#[trigger] lambdas@[j2]) == lagrange_coeff(
                            xs,
                            0,
                            (#[trigger] ids@[j2]) as nat,
                        ),
                    point_log(acc) == node_agg(ctx, xs, ids@.take(j as int)),
                decreases ids@.len() - j,
            {
                let id = ids[j];
                let lam = lagrange_coefficient_exec(&all_origin, 0, id as usize);
                let y = match self.context.find_share(id) {
                    Some(y) => y,
                    None => {
                        proof {
                            assert(ctx.has_share(id as nat));
                            assert(false);
                        }
                        el_identity()
                    },
                };
                let term = el_mul(&y, &lam);
                acc = el_add(&acc, &term);
                lambdas.push(lam);
                proof {
                    assert(ids@.take(j + 1).drop_last() =~= ids@.take(j as int));
                    assert(ids@.take(j + 1).last() == ids@[j as int]);
                }
                j = j + 1;
            }
            proof {
                assert(ids@.take(ids@.len() as int) =~= ids@);
            }
            new_agg.push((groups[k].0.0 as u64, acc));
            new_lag.push((groups[k].0, lambdas));
            k = k + 1;
        }

        self.aggregated_verifying_shares = new_agg;
        self.lagrange_coefficients = new_lag;
        proof {
            assert(gm == picked_groups(ctx, valid, self.context.num_signing_shares as int));
            assert forall|a: int, b: int|
                0 <= a < b < self.agg_raw().len() implies self.agg_raw()[a].0
                != self.agg_raw()[b].0 by {
                assert(groups@[a].0.0 < groups@[b].0.0);
            }
            assert forall|a: int, b: int|
                0 <= a < b < self.lagrange().len() implies self.lagrange()[a].0
                != self.lagrange()[b].0 by {
                assert(groups@[a].0.0 < groups@[b].0.0);
            }
            assert forall|k2: int|
                0 <= k2 < gm.len() implies (#[trigger] self.agg_model()[k2]).0 == (
            #[trigger] gm[k2]).0.0 as u64 && self.agg_model()[k2].1 == node_agg(
                    self.ctx(),
                    xs,
                    gm[k2].1,
                ) by {
                assert(point_log(self.aggregated_verifying_shares@[k2].1) == node_agg(
                    ctx,
                    xs,
                    gm[k2].1,
                ));
            }
        }
        Ok(())
    }

    /// Drops the listed members from the valid set; when anything
    /// changed, recomputes the aggregated shares (which may find the
    /// rest short of the threshold).
    pub fn remove_nodes(&mut self, node_list: &Vec<NodeID>) -> (r: Result<(), FrostError>)
        requires
            old(self).well_formed(),
        ensures
            final(self).well_formed(),
            final(self).ctx() == old(self).ctx(),
            r is Err ==> r == Result::<(), FrostError>::Err(FrostError::NotEnoughSigningShares),
            // the shortfall is cached for fail-fast checks; success leaves
            // the cache as it was
            r is Err ==> (final(self).cached() matches Some(c) && c == avail_shares(
                old(self).ctx(),
                final(self).valid(),
            )),
            r is Ok ==> final(self).cached() == old(self).cached(),
            forall|n: NodeID|
                #[trigger] final(self).contains_spec(n) == (old(self).contains_spec(n)
                    && !node_list@.contains(n)),
            (exists|i: int|
                0 <= i < old(self).valid().len() && node_list@.contains(
                    #[trigger] old(self).valid()[i],
                )) ==> (r is Ok <==> avail_shares(old(self).ctx(), final(self).valid())
                >= old(self).ctx().num_signing_shares) && (r is Ok
                ==> final(self).aggregation_fresh()),
            !(exists|i: int|
                0 <= i < old(self).valid().len() && node_list@.contains(
                    #[trigger] old(self).valid()[i],
                )) ==> r is Ok && final(self).agg_raw() == old(self).agg_raw()
                && final(self).lagrange() == old(self).lagrange() && final(self).cached() == old(
                self,
            ).cached(),
    {
        let ghost old_valid = self.valid_nodes@;
        let mut kept: Vec<NodeID> = Vec::new();
        let mut changed: bool = false;
        let mut i: usize = 0;
        while i < self.valid_nodes.len()
            invariant
                0 <= i <= old_valid.len(),
                old_valid == self.valid_nodes@,
                *self == *old(self),
                old(self).well_formed(),
                // kept holds exactly the prefix's survivors, in order
                forall|n: NodeID|
                    #[trigger] seq_has_node(kept@, n) <==> seq_has_node(
                        old_valid.take(i as int),
                        n,
                    ) && !node_list@.contains(n),
                forall|a: int, b: int| 0 <= a < b < kept@.len() ==> kept@[a].0 < kept@[b].0,
                forall|a: int|
                    0 <= a < kept@.len() && i < old_valid.len() ==> (#[trigger] kept@[a]).0
                        < old_valid[i as int].0,
                forall|a: int|
                    0 <= a < kept@.len() ==> old(self).contains_spec(#[trigger] kept@[a]),
                changed <==> kept@.len() < i,
                changed ==> exists|b: int|
                    0 <= b < i && node_list@.contains(#[trigger] old_valid[b]),
                !changed ==> forall|b: int|
                    0 <= b < i ==> !node_list@.contains(#[trigger] old_valid[b]),
                !changed ==> kept@ == old_valid.take(i as int),
            decreases old_valid.len() - i,
        {
            let node = self.valid_nodes[i];
            let mut listed: bool = false;
            let mut m: usize = 0;
            while m < node_list.len()
                invariant
                    0 <= m <= node_list@.len(),
                    listed ==> node_list@.contains(node),
                    !listed ==> forall|t: int| 0 <= t < m ==> (#[trigger] node_list@[t]) != node,
                decreases node_list@.len() - m,
            {
                if node_list[m].0 == node.0 {
                    listed = true;
                    proof {
                        assert((#[trigger] node_list@[m as int]) == node);
                    }
                }
                m = m + 1;
            }
            let ghost old_kept = kept@;
            let ghost was_changed = changed;
            if !listed {
                kept.push(node);
                proof {
                    assert(!node_list@.contains(node));
                    if !was_changed {
                        assert(kept@ =~= old_valid.take(i + 1));
                    }
                }
            } else {
                changed = true;
            }
            proof {
                assert((#[trigger] old_valid[i as int]) == node);
                assert((#[trigger] old(self).valid()[i as int]) == node);
                assert(old(self).contains_spec(node));
                assert(old_valid.take(i + 1).drop_last() =~= old_valid.take(i as int));
                assert(old_valid.take(i + 1).last() == old_valid[i as int]);
                assert forall|n: NodeID|
                    #[trigger] seq_has_node(kept@, n) <==> seq_has_node(old_valid.take(i + 1), n)
                    && !node_list@.contains(n) by {
                    if seq_has_node(kept@, n) {
                        let a = choose|a: int| 0 <= a < kept@.len() && (#[trigger] kept@[a]) == n;
                        if a < old_kept.len() {
                            assert(old_kept[a] == n);
                            assert(seq_has_node(old_kept, n));
                            let b = choose|b: int|
                                0 <= b < old_valid.take(i as int).len() && (
                                #[trigger] old_valid.take(i as int)[b]) == n;
                            assert(old_valid.take(i + 1)[b] == n);
                        } else {
                            assert(kept@[a] == node);
                            assert(old_valid.take(i + 1)[i as int] == n);
                        }
                        assert(seq_has_node(old_valid.take(i + 1), n));
                    }
                    if seq_has_node(old_valid.take(i + 1), n) && !node_list@.contains(n) {
                        let b = choose|b: int|
                            0 <= b < old_valid.take(i + 1).len() && (
                            #[trigger] old_valid.take(i + 1)[b]) == n;
                        if b < i {
                            assert(old_valid.take(i + 1)[b] == old_valid[b]);
                            assert(old_valid.take(i as int)[b] == old_valid[b]);
                            assert((#[trigger] old_valid.take(i as int)[b]) == n);
                            assert(seq_has_node(old_valid.take(i as int), n));
                            assert(seq_has_node(old_kept, n));
                            let a = choose|a: int|
                                0 <= a < old_kept.len() && (#[trigger] old_kept[a]) == n;
                            assert(kept@[a] == n);
                        } else {
                            assert(n == node);
                            assert(!listed);
                            assert(kept@[kept@.len() - 1] == n);
                        }
                        assert(seq_has_node(kept@, n));
                    }
                }
                if !listed {
                    assert forall|a: int|
                        0 <= a < kept@.len() && i + 1 < old_valid.len() implies (
                    #[trigger] kept@[a]).0 < old_valid[i + 1].0 by {
                        if a < old_kept.len() {
                            assert(old_kept[a].0 < old_valid[i as int].0);
                        }
                        assert(old_valid[i as int].0 < old_valid[i + 1].0);
                    }
                    assert forall|a: int, b: int|
                        0 <= a < b < kept@.len() implies kept@[a].0 < kept@[b].0 by {
                        if b < old_kept.len() {
                            assert(old_kept[a].0 < old_kept[b].0);
                        } else {
                            assert(old_kept[a].0 < old_valid[i as int].0);
                        }
                    }
                }
            }
            i = i + 1;
        }
        proof {
            assert(old_valid.take(old_valid.len() as int) =~= old_valid);
            if !changed {
                assert(kept@ == old_valid.take(old_valid.len() as int));
                assert(kept@ =~= old_valid);
            }
        }
        let no_change = !changed;
        proof {
            if no_change {
                assert(kept@ == old_valid.take(old_valid.len() as int));
                assert(old_valid.take(old_valid.len() as int) =~= old_valid);
            }
        }
        self.valid_nodes = kept;
        proof {
            assert forall|n: NodeID|
                #[trigger] self.contains_spec(n) == (old(self).contains_spec(n)
                    && !node_list@.contains(n)) by {
                if self.contains_spec(n) {
                    let a = choose|a: int|
                        0 <= a < self.valid().len() && (#[trigger] self.valid()[a]) == n;
                    assert(kept@[a] == n);
                    assert(seq_has_node(kept@, n));
                    let b = choose|b: int|
                        0 <= b < old_valid.len() && (#[trigger] old_valid[b]) == n;
                    assert(old(self).valid()[b] == n);
                    assert(old(self).contains_spec(n));
                }
                if old(self).contains_spec(n) && !node_list@.contains(n) {
                    let b = choose|b: int|
                        0 <= b < old(self).valid().len() && (#[trigger] old(self).valid()[b]) == n;
                    assert(old_valid[b] == n);
                    assert(seq_has_node(old_valid, n));
                    assert(seq_has_node(kept@, n));
                    let a = choose|a: int| 0 <= a < kept@.len() && (#[trigger] kept@[a]) == n;
                    assert(self.valid()[a] == n);
                }
            }
        }
        if no_change {
            proof {
                assert forall|b: int|
                    0 <= b < old(self).valid().len() implies !node_list@.contains(
                        #[trigger] old(self).valid()[b],
                    ) by {
                    assert(!node_list@.contains(old_valid[b]));
                }
                assert(self.valid() =~= old(self).valid());
                assert(self.agg_raw() == old(self).agg_raw());
                assert forall|a: int, b: int|
                    0 <= a < b < self.agg_raw().len() implies self.agg_raw()[a].0
                    != self.agg_raw()[b].0 by {
                    assert(old(self).agg_raw()[a].0 != old(self).agg_raw()[b].0);
                }
            }
            return Ok(());
        }
        proof {
            let b0 = choose|b: int|
                0 <= b < old_valid.len() && node_list@.contains(#[trigger] old_valid[b]);
            assert((#[trigger] old(self).valid()[b0]) == old_valid[b0]);
            assert forall|a: int|
                0 <= a < self.valid().len() implies self.ctx().has_node(
                    #[trigger] self.valid()[a],
                ) by {
                assert(old(self).contains_spec(kept@[a]));
                let b = choose|b: int|
                    0 <= b < old(self).valid().len() && (#[trigger] old(self).valid()[b])
                        == kept@[a];
                assert(old(self).ctx().has_node(old(self).valid()[b]));
            }
            assert(self.agg_raw() == old(self).agg_raw());
            assert forall|a: int, b: int|
                0 <= a < b < self.agg_raw().len() implies self.agg_raw()[a].0
                != self.agg_raw()[b].0 by {
                assert(old(self).agg_raw()[a].0 != old(self).agg_raw()[b].0);
            }
            assert(self.lagrange() == old(self).lagrange());
            assert forall|a: int, b: int|
                0 <= a < b < self.lagrange().len() implies self.lagrange()[a].0
                != self.lagrange()[b].0 by {
                assert(old(self).lagrange()[a].0 != old(self).lagrange()[b].0);
            }
        }
        let ghost mid = *self;
        let result = self.update_aggregated_verifying_shares();
        proof {
            assert(mid.ctx() == old(self).ctx());
            assert(self.valid() == mid.valid());
            assert(avail_shares(old(self).ctx(), self.valid()) == avail_shares(
                mid.ctx(),
                mid.valid(),
            ));
            assert(result is Ok ==> self.aggregation_fresh());
            assert forall|n: NodeID|
                #[trigger] self.contains_spec(n) == (old(self).contains_spec(n)
                    && !node_list@.contains(n)) by {
                if self.contains_spec(n) {
                    let a = choose|a: int|
                        0 <= a < self.valid().len() && (#[trigger] self.valid()[a]) == n;
                    assert(mid.valid()[a] == n);
                    assert(mid.contains_spec(n));
                }
                if mid.contains_spec(n) {
                    let a = choose|a: int|
                        0 <= a < mid.valid().len() && (#[trigger] mid.valid()[a]) == n;
                    assert(self.valid()[a] == n);
                    assert(self.contains_spec(n));
                }
            }
        }
        result
    }

    /// Builds the signing task for one message: the participants are the
    /// valid members that hold an aggregated share and a pulled nonce
    /// pair; each contributes its pair, and signs under its member
    /// identifier against the aggregated verifying shares.
    #[verifier::rlimit(60)]
    pub fn make_sign_task(
        &self,
        nonce_index: usize,
        nonce_commitments: &Vec<(NodeID, (k256::ProjectivePoint, k256::ProjectivePoint))>,
        message: Vec<u8>,
    ) -> (r: crate::sign_task::FrostSignTask)
        requires
            self.well_formed(),
        ensures
            r.well_formed(),
            r.message_spec() == message@,
            r.vk_log() == point_log(self.ctx().verifying_key),
            r.nonce_index_spec() == nonce_index,
            r.shares_model() == self.agg_model(),
            // every participant is a valid member with an aggregated
            // share, contributing exactly its pulled nonce pair
            forall|k: int|
                0 <= k < r.commitments_model().len() ==> exists|t: int|
                    0 <= t < nonce_commitments@.len() && (#[trigger] r.commitments_model()[k]).0
                        == (#[trigger] nonce_commitments@[t]).0.0 as nat
                        && r.commitments_model()[k].1 == point_log(nonce_commitments@[t].1.0)
                        && r.commitments_model()[k].2 == point_log(nonce_commitments@[t].1.1)
                        && self.contains_spec(nonce_commitments@[t].0) && self.has_aggregated(
                        nonce_commitments@[t].0.0 as u64,
                    ),
            // and every valid member with an aggregated share and a
            // pulled pair takes part
            forall|i: int|
                0 <= i < self.valid().len() && self.has_aggregated(
                    (#[trigger] self.valid()[i]).0 as u64,
                ) && (exists|t: int|
                    0 <= t < nonce_commitments@.len() && (#[trigger] nonce_commitments@[t]).0
                        == self.valid()[i]) ==> exists|k: int|
                    0 <= k < r.commitments_model().len() && (#[trigger] r.commitments_model()[
                    k]).0 == self.valid()[i].0 as nat,
            r.lagrange().len() == self.lagrange().len(),
            forall|k: int|
                0 <= k < r.lagrange().len() ==> (#[trigger] r.lagrange()[k]).0
                    == self.lagrange()[k].0 && r.lagrange()[k].1@ == self.lagrange()[k].1@,
    {
        let mut signing_commitments: Vec<(u64, k256::ProjectivePoint, k256::ProjectivePoint)> =
            Vec::new();
        let mut i: usize = 0;
        while i < self.valid_nodes.len()
            invariant
                0 <= i <= self.valid().len(),
                self.well_formed(),
                forall|a: int, b: int|
                    0 <= a < b < signing_commitments@.len() ==> signing_commitments@[a].0
                        < signing_commitments@[b].0,
                forall|a: int|
                    0 <= a < signing_commitments@.len() && i < self.valid().len()
                        ==> (#[trigger] signing_commitments@[a]).0 < self.valid()[i as int].0
                        as u64,
                forall|k: int|
                    0 <= k < signing_commitments@.len() ==> self.entry_from_pulled(
                        #[trigger] signing_commitments@[k],
                        nonce_commitments@,
                    ),
                forall|i2: int|
                    0 <= i2 < i && self.has_aggregated((#[trigger] self.valid()[i2]).0 as u64)
                        && (exists|t: int|
                        0 <= t < nonce_commitments@.len() && (#[trigger] nonce_commitments@[t]).0
                            == self.valid()[i2]) ==> exists|k: int|
                        0 <= k < signing_commitments@.len() && (#[trigger] signing_commitments@[
                        k]).0 == self.valid()[i2].0 as u64,
            decreases self.valid().len() - i,
        {
            let node = self.valid_nodes[i];
            let ident = node.0 as u64;
            proof {
                assert((#[trigger] self.valid()[i as int]) == node);
                assert(self.contains_spec(node));
            }
            // only members with an aggregated share take part
            let mut has_share: bool = false;
            let mut a: usize = 0;
            while a < self.aggregated_verifying_shares.len()
                invariant
                    0 <= a <= self.agg_raw().len(),
                    self.well_formed(),
                    ident == node.0 as u64,
                    has_share ==> self.has_aggregated(ident),
                    !has_share ==> forall|t: int|
                        0 <= t < a ==> (#[trigger] self.agg_raw()[t]).0 != ident,
                decreases self.agg_raw().len() - a,
            {
                if self.aggregated_verifying_shares[a].0 == ident {
                    has_share = true;
                    proof {
                        assert((#[trigger] self.agg_model()[a as int]).0 == ident);
                    }
                }
                a = a + 1;
            }
            proof {
                if !has_share && self.has_aggregated(ident) {
                    let w = choose|w: int|
                        0 <= w < self.agg_model().len() && (#[trigger] self.agg_model()[w]).0
                            == ident;
                    assert((#[trigger] self.agg_raw()[w]).0 == ident);
                }
            }
            let ghost pre = signing_commitments@;
            if has_share {
                // the member's pulled nonce pair, if one was pulled
                let mut pair_found: Option<(k256::ProjectivePoint, k256::ProjectivePoint)> = None;
                let mut m: usize = 0;
                while m < nonce_commitments.len()
                    invariant
                        0 <= m <= nonce_commitments@.len(),
                        pair_found is None ==> forall|t: int|
                            0 <= t < m ==> (#[trigger] nonce_commitments@[t]).0 != node,
                        pair_found matches Some(p) ==> exists|t: int|
                            0 <= t < nonce_commitments@.len() && (
                            #[trigger] nonce_commitments@[t]).0 == node && nonce_commitments@[
                            t].1 == p,
                    decreases nonce_commitments@.len() - m,
                {
                    if nonce_commitments[m].0.0 == node.0 {
                        proof {
                            assert((#[trigger] nonce_commitments@[m as int]).0 == node);
                        }
                        pair_found = Some(nonce_commitments[m].1);
                        m = nonce_commitments.len();
                    } else {
                        m = m + 1;
                    }
                }
                if let Some(pair) = pair_found {
                    signing_commitments.push((ident, pair.0, pair.1));
                    proof {
                        assert forall|a2: int, b: int|
                            0 <= a2 < b < signing_commitments@.len()
                                implies signing_commitments@[a2].0 < signing_commitments@[b].0 by {
                            if b < pre.len() {
                                assert(pre[a2].0 < pre[b].0);
                            } else {
                                assert((#[trigger] pre[a2]).0 < ident);
                            }
                        }
                        let t0 = choose|t: int|
                            0 <= t < nonce_commitments@.len() && (
                            #[trigger] nonce_commitments@[t]).0 == node && nonce_commitments@[
                            t].1 == pair;
                        assert forall|k: int|
                            0 <= k < signing_commitments@.len() implies self.entry_from_pulled(
                                #[trigger] signing_commitments@[k],
                                nonce_commitments@,
                            ) by {
                            if k < pre.len() {
                                assert(signing_commitments@[k] == pre[k]);
                                assert(self.entry_from_pulled(pre[k], nonce_commitments@));
                            } else {
                                assert(signing_commitments@[k] == (ident, pair.0, pair.1));
                                assert((#[trigger] nonce_commitments@[t0]).0.0 as u64 == ident);
                                assert(self.entry_from_pulled(
                                    (ident, pair.0, pair.1),
                                    nonce_commitments@,
                                ));
                            }
                        }
                    }
                }
            }
            proof {
                if signing_commitments@.len() == pre.len() {
                    assert forall|k: int|
                        0 <= k < signing_commitments@.len() implies self.entry_from_pulled(
                            #[trigger] signing_commitments@[k],
                            nonce_commitments@,
                        ) by {
                        assert(signing_commitments@[k] == pre[k]);
                        assert(self.entry_from_pulled(pre[k], nonce_commitments@));
                    }
                }
                assert forall|a2: int|
                    0 <= a2 < signing_commitments@.len() && i + 1 < self.valid().len()
                        implies (#[trigger] signing_commitments@[a2]).0 < self.valid()[i + 1].0
                        as u64 by {
                    assert(self.valid()[i as int].0 < self.valid()[i + 1].0);
                    if a2 < pre.len() {
                        assert(pre[a2].0 < self.valid()[i as int].0 as u64);
                    }
                    assert(signing_commitments@[a2].0 <= ident);
                }
                assert forall|i2: int|
                    0 <= i2 < i + 1 && self.has_aggregated(
                        (#[trigger] self.valid()[i2]).0 as u64,
                    ) && (exists|t: int|
                        0 <= t < nonce_commitments@.len() && (#[trigger] nonce_commitments@[t]).0
                            == self.valid()[i2]) implies exists|k: int|
                        0 <= k < signing_commitments@.len() && (#[trigger] signing_commitments@[
                        k]).0 == self.valid()[i2].0 as u64 by {
                    if i2 < i {
                        let k0 = choose|k: int|
                            0 <= k < pre.len() && (#[trigger] pre[k]).0 == self.valid()[i2].0
                                as u64;
                        assert(signing_commitments@[k0] == pre[k0]);
                        assert((#[trigger] signing_commitments@[k0]).0 == self.valid()[i2].0
                            as u64);
                    } else {
                        assert(self.valid()[i2] == node);
                        assert(has_share);
                        let n = signing_commitments@.len() - 1;
                        assert((#[trigger] signing_commitments@[n]).0 == ident);
                    }
                }
            }
            i = i + 1;
        }

        // the aggregated shares are the task's verifying shares
        let mut shares: Vec<(u64, k256::ProjectivePoint)> = Vec::new();
        let mut a: usize = 0;
        while a < self.aggregated_verifying_shares.len()
            invariant
                0 <= a <= self.agg_raw().len(),
                self.well_formed(),
                shares@.len() == a,
                forall|k: int| 0 <= k < a ==> #[trigger] shares@[k] == self.agg_raw()[k],
            decreases self.agg_raw().len() - a,
        {
            let entry = self.aggregated_verifying_shares[a];
            shares.push(entry);
            a = a + 1;
        }
        proof {
            assert(shares@ =~= self.agg_raw());
        }

        // the member lists for private signing
        let mut lagrange: Vec<(NodeID, Vec<k256::Scalar>)> = Vec::new();
        let mut g: usize = 0;
        while g < self.lagrange_coefficients.len()
            invariant
                0 <= g <= self.lagrange().len(),
                self.well_formed(),
                lagrange@.len() == g,
                forall|k: int|
                    0 <= k < g ==> (#[trigger] lagrange@[k]).0 == self.lagrange()[k].0
                        && lagrange@[k].1@ == self.lagrange()[k].1@,
            decreases self.lagrange().len() - g,
        {
            let node = self.lagrange_coefficients[g].0;
            let mut coeffs: Vec<k256::Scalar> = Vec::new();
            let mut c: usize = 0;
            while c < self.lagrange_coefficients[g].1.len()
                invariant
                    0 <= c <= self.lagrange()[g as int].1@.len(),
                    g < self.lagrange().len(),
                    self.well_formed(),
                    coeffs@ == self.lagrange()[g as int].1@.take(c as int),
                decreases self.lagrange()[g as int].1@.len() - c,
            {
                let v = self.lagrange_coefficients[g].1[c];
                coeffs.push(v);
                proof {
                    assert(coeffs@ =~= self.lagrange()[g as int].1@.take(c + 1));
                }
                c = c + 1;
            }
            proof {
                assert(self.lagrange()[g as int].1@.take(self.lagrange()[g as int].1@.len() as int)
                    =~= self.lagrange()[g as int].1@);
            }
            lagrange.push((node, coeffs));
            g = g + 1;
        }

        let vk = el_clone(&self.context.verifying_key);
        proof {
            assert forall|a2: int, b: int|
                0 <= a2 < b < lagrange@.len() implies lagrange@[a2].0 != lagrange@[b].0 by {
                assert(self.lagrange()[a2].0 != self.lagrange()[b].0);
            }
            assert forall|a2: int, b: int|
                0 <= a2 < b < shares@.len() implies shares@[a2].0 != shares@[b].0 by {
                assert(self.agg_raw()[a2].0 != self.agg_raw()[b].0);
            }
        }
        let ghost sc = signing_commitments@;
        let task = crate::sign_task::FrostSignTask::new(
            signing_commitments,
            message,
            vk,
            shares,
            lagrange,
            nonce_index,
        );
        proof {
            assert(task.commitments_model() == crate::frost_hash::commit_model(sc));
            assert forall|k: int|
                0 <= k < task.commitments_model().len() implies exists|t: int|
                    0 <= t < nonce_commitments@.len() && (#[trigger] task.commitments_model()[
                    k]).0 == (#[trigger] nonce_commitments@[t]).0.0 as nat
                        && task.commitments_model()[k].1 == point_log(nonce_commitments@[t].1.0)
                        && task.commitments_model()[k].2 == point_log(nonce_commitments@[t].1.1)
                        && self.contains_spec(nonce_commitments@[t].0) && self.has_aggregated(
                        nonce_commitments@[t].0.0 as u64,
                    ) by {
                assert(task.commitments_model()[k] == (
                    sc[k].0 as nat,
                    point_log(sc[k].1),
                    point_log(sc[k].2),
                ));
                assert(self.entry_from_pulled(sc[k], nonce_commitments@));
                let t2 = choose|t: int|
                    0 <= t < nonce_commitments@.len() && sc[k].0 == (
                    #[trigger] nonce_commitments@[t]).0.0 as u64 && sc[k].1 == nonce_commitments@[
                    t].1.0 && sc[k].2 == nonce_commitments@[t].1.1 && self.contains_spec(
                        nonce_commitments@[t].0,
                    ) && self.has_aggregated(nonce_commitments@[t].0.0 as u64);
                assert((#[trigger] nonce_commitments@[t2]).0.0 as nat
                    == task.commitments_model()[k].0);
            }
            assert forall|i2: int|
                0 <= i2 < self.valid().len() && self.has_aggregated(
                    (#[trigger] self.valid()[i2]).0 as u64,
                ) && (exists|t: int|
                    0 <= t < nonce_commitments@.len() && (#[trigger] nonce_commitments@[t]).0
                        == self.valid()[i2]) implies exists|k: int|
                    0 <= k < task.commitments_model().len() && (
                    #[trigger] task.commitments_model()[k]).0 == self.valid()[i2].0 as nat by {
                let k0 = choose|k: int|
                    0 <= k < sc.len() && (#[trigger] sc[k]).0 == self.valid()[i2].0 as u64;
                assert(task.commitments_model()[k0] == (
                    sc[k0].0 as nat,
                    point_log(sc[k0].1),
                    point_log(sc[k0].2),
                ));
                assert((#[trigger] task.commitments_model()[k0]).0 == self.valid()[i2].0 as nat);
            }
            assert(task.shares_model().len() == self.agg_model().len());
            assert forall|k: int|
                0 <= k < task.shares_model().len() implies #[trigger] task.shares_model()[k]
                == self.agg_model()[k] by {
                assert(shares@[k] == self.agg_raw()[k]);
            }
            assert(task.shares_model() =~= self.agg_model());
        }
        task
    }
}

/// The identifiers as numbers.
pub open spec fn ids_nat(s: Seq<u64>) -> Seq<nat> {
    s.map_values(|x: u64| x as nat)
}

/// Plain indices as numbers.
pub open spec fn usizes_nat(s: Seq<usize>) -> Seq<nat> {
    s.map_values(|x: usize| x as nat)
}

/// Whether the member list holds the given member.
pub open spec fn seq_has_node(s: Seq<NodeID>, n: NodeID) -> bool {
    exists|i: int| 0 <= i < s.len() && s[i] == n
}

/// The spec-level image of a picked-group list.
pub open spec fn groups_model(g: Seq<(NodeID, Vec<u64>)>) -> Seq<(NodeID, Seq<u64>)> {
    g.map_values(|e: (NodeID, Vec<u64>)| (e.0, e.1@))
}

/// One more member adds its identifier count to the available total.
proof fn lemma_avail_take_step(ctx: FrostPubKeyContext, valid: Seq<NodeID>, i: int)
    requires
        0 <= i < valid.len(),
    ensures
        avail_shares(ctx, valid.take(i + 1)) == avail_shares(ctx, valid.take(i))
            + ctx.identifiers_of(valid[i]).len(),
{
    assert(valid.take(i + 1).drop_last() =~= valid.take(i));
    assert(valid.take(i + 1).last() == valid[i]);
}

/// A prefix never holds more shares than the whole list.
proof fn lemma_avail_take_mono(ctx: FrostPubKeyContext, valid: Seq<NodeID>, i: int)
    requires
        0 <= i <= valid.len(),
    ensures
        avail_shares(ctx, valid.take(i)) <= avail_shares(ctx, valid),
    decreases valid.len() - i,
{
    if i < valid.len() {
        lemma_avail_take_step(ctx, valid, i);
        lemma_avail_take_mono(ctx, valid, i + 1);
    } else {
        assert(valid.take(i) =~= valid);
    }
}

/// The available total is never negative.
proof fn lemma_avail_nonneg(ctx: FrostPubKeyContext, valid: Seq<NodeID>)
    ensures
        avail_shares(ctx, valid) >= 0,
    decreases valid.len(),
{
    if valid.len() > 0 {
        lemma_avail_nonneg(ctx, valid.drop_last());
    }
}

} // verus!
