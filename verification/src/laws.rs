//! Properties that cut across several operations, stated and proved
//! once over the same models the operations' contracts use.

use vstd::prelude::*;
use crate::curve::{fadd, fmul, group_order};
use crate::dpss::ReshareState;
use crate::frost_context::FrostPubKeyContext;
use crate::matrix::Matrix;
use crate::modmath::{
    lemma_fadd_assoc, lemma_fadd_shuffle, lemma_fadd_zero, lemma_fmul_distributes, lemma_fmul_zero,
};
use crate::nonce_commitments::EpochNonceCommitments;
use crate::poly::{pc_add, poly_eval};
use crate::signer_group::{flatten_ids, node_agg};

verus! {

/// Resharing fixes the secret's point: column zero, row zero of the
/// finished matrix is the previous epoch's entry shifted by the joint
/// key generation's committed secret. The hypotheses are exactly what
/// `ReshareState::from_dkg_stage` and `ReshareState::make_new_matrix`
/// ensure.
pub proof fn lemma_reshare_fixes_the_secret(
    last: Matrix,
    dkg_logs: Seq<nat>,
    rs: ReshareState,
    m: Matrix,
)
    requires
        rs.points().len() > 0,
        forall|i: int|
            0 <= i < rs.points().len() ==> #[trigger] rs.points()[i] == fadd(
                last.at(0, i),
                poly_eval(dkg_logs, i as nat),
            ),
        m.rows_spec() == rs.points().len(),
        forall|row: int|
            0 <= row < m.rows_spec() ==> #[trigger] m.at(0, row) == rs.points()[row],
    ensures
        m.at(0, 0) == fadd(last.at(0, 0), poly_eval(dkg_logs, 0)),
{
    assert(m.at(0, 0) == rs.points()[0]);
}

/// When the joint key generation commits to a zero secret, resharing
/// leaves the verifying key itself untouched: the shifted entry equals
/// the previous one.
pub proof fn lemma_zero_dkg_preserves_the_key(
    last: Matrix,
    dkg_logs: Seq<nat>,
    rs: ReshareState,
    m: Matrix,
)
    requires
        rs.points().len() > 0,
        forall|i: int|
            0 <= i < rs.points().len() ==> #[trigger] rs.points()[i] == fadd(
                last.at(0, i),
                poly_eval(dkg_logs, i as nat),
            ),
        m.rows_spec() == rs.points().len(),
        forall|row: int|
            0 <= row < m.rows_spec() ==> #[trigger] m.at(0, row) == rs.points()[row],
        dkg_logs.len() == 0 || dkg_logs[0] == 0,
        last.at(0, 0) < group_order(),
    ensures
        m.at(0, 0) == last.at(0, 0),
{
    lemma_reshare_fixes_the_secret(last, dkg_logs, rs, m);
    if dkg_logs.len() == 0 {
        assert(poly_eval(dkg_logs, 0) == 0);
    } else {
        lemma_fmul_zero(poly_eval(dkg_logs.drop_first(), 0));
        lemma_fadd_zero(0);
        assert(dkg_logs.first() == dkg_logs[0]);
        assert(poly_eval(dkg_logs, 0) == fadd(0, 0));
        assert(fadd(0nat, 0nat) == 0) by {
            vstd::arithmetic::div_mod::lemma_small_mod(0, group_order());
        }
    }
    lemma_fadd_zero(last.at(0, 0));
}

/// A pre-committed nonce pair is never handed out twice: a successful
/// pull yields the pool's cursor and moves it forward, and the cursor
/// never moves back, so the indices of any two successful pulls differ.
/// The hypotheses are exactly what `pull_next_commitments` ensures of a
/// successful pull, plus the cursor's monotonicity between the two.
pub proof fn lemma_nonce_pair_used_at_most_once(
    before_first: EpochNonceCommitments,
    after_first: EpochNonceCommitments,
    before_second: EpochNonceCommitments,
    first_index: int,
    second_index: int,
)
    requires
        first_index == before_first.next_idx(),
        after_first.next_idx() == before_first.next_idx() + 1,
        before_second.next_idx() >= after_first.next_idx(),
        second_index == before_second.next_idx(),
    ensures
        second_index != first_index,
{
}

/// The coefficient-wise fold of a list of commitments, the way the
/// aggregator builds its running sum: one `pc_add` per accepted
/// dealing, starting from the empty commitment.
pub open spec fn pc_sum(cs: Seq<Seq<nat>>) -> Seq<nat>
    decreases cs.len(),
{
    if cs.len() == 0 {
        Seq::empty()
    } else {
        pc_add(pc_sum(cs.drop_last()), cs.last())
    }
}

/// A commitment's coefficient at an index, zero beyond its degree.
pub open spec fn coeff_of(c: Seq<nat>, i: int) -> nat {
    if 0 <= i < c.len() {
        c[i]
    } else {
        0
    }
}

/// The modular sum of the commitments' coefficients at one index.
pub open spec fn coeff_sum(cs: Seq<Seq<nat>>, i: int) -> nat
    decreases cs.len(),
{
    if cs.len() == 0 {
        0
    } else {
        fadd(coeff_sum(cs.drop_last(), i), coeff_of(cs.last(), i))
    }
}

/// No commitment reaches past the fold's length.
proof fn lemma_pc_sum_len(cs: Seq<Seq<nat>>)
    ensures
        forall|j: int| 0 <= j < cs.len() ==> (#[trigger] cs[j]).len() <= pc_sum(cs).len(),
    decreases cs.len(),
{
    if cs.len() > 0 {
        lemma_pc_sum_len(cs.drop_last());
        assert forall|j: int| 0 <= j < cs.len() implies (#[trigger] cs[j]).len() <= pc_sum(
            cs,
        ).len() by {
            if j < cs.len() - 1 {
                assert(cs.drop_last()[j] == cs[j]);
            }
        }
    }
}

/// Beyond every commitment's degree the coefficient sum is zero.
proof fn lemma_coeff_sum_beyond(cs: Seq<Seq<nat>>, i: int)
    requires
        forall|j: int| 0 <= j < cs.len() ==> (#[trigger] cs[j]).len() <= i,
    ensures
        coeff_sum(cs, i) == 0,
    decreases cs.len(),
{
    if cs.len() > 0 {
        assert forall|j: int| 0 <= j < cs.drop_last().len() implies (
        #[trigger] cs.drop_last()[j]).len() <= i by {
            assert(cs.drop_last()[j] == cs[j]);
        }
        lemma_coeff_sum_beyond(cs.drop_last(), i);
        assert(coeff_of(cs.last(), i) == 0);
        assert(fadd(0nat, 0nat) == 0) by {
            vstd::arithmetic::div_mod::lemma_small_mod(0, group_order());
        }
    }
}

/// Aggregation is coefficient-wise: folding the accepted commitments
/// with `pc_add` — what `accept_polynomial_commitment` does, one
/// dealing at a time — yields, at every index, the modular sum of the
/// dealings' coefficients there, with identity padding. The same fold
/// shape governs the per-vote share sums.
pub proof fn lemma_aggregation_is_coefficient_wise(cs: Seq<Seq<nat>>, i: int)
    requires
        0 <= i < pc_sum(cs).len(),
    ensures
        pc_sum(cs)[i] == coeff_sum(cs, i),
    decreases cs.len(),
{
    let dl = cs.drop_last();
    let prev = pc_sum(dl);
    assert(pc_sum(cs) == pc_add(prev, cs.last()));
    assert(pc_sum(cs)[i] == fadd(coeff_of(prev, i), coeff_of(cs.last(), i)));
    if i < prev.len() {
        lemma_aggregation_is_coefficient_wise(dl, i);
    } else {
        lemma_pc_sum_len(dl);
        assert forall|j: int| 0 <= j < dl.len() implies (#[trigger] dl[j]).len() <= i by {}
        lemma_coeff_sum_beyond(dl, i);
    }
}

/// Evaluating the coefficient-wise sum of two commitments gives the
/// modular sum of their evaluations: the verifiable-secret-sharing
/// relation is additive.
pub proof fn lemma_vss_additive(a: Seq<nat>, b: Seq<nat>, x: nat)
    ensures
        poly_eval(pc_add(a, b), x) == fadd(poly_eval(a, x), poly_eval(b, x)),
    decreases a.len() + b.len(),
{
    let s = pc_add(a, b);
    if a.len() == 0 && b.len() == 0 {
        assert(s.len() == 0);
        assert(fadd(0nat, 0nat) == 0) by {
            vstd::arithmetic::div_mod::lemma_small_mod(0, group_order());
        }
    } else {
        let a2 = if a.len() == 0 { a } else { a.drop_first() };
        let b2 = if b.len() == 0 { b } else { b.drop_first() };
        assert(s.len() > 0);
        assert(s.drop_first() =~= pc_add(a2, b2));
        lemma_vss_additive(a2, b2, x);
        let ea = poly_eval(a, x);
        let eb = poly_eval(b, x);
        let ea2 = poly_eval(a2, x);
        let eb2 = poly_eval(b2, x);
        let a0: nat = if a.len() == 0 { 0 } else { a.first() };
        let b0: nat = if b.len() == 0 { 0 } else { b.first() };
        // head coefficient of the sum
        assert(s.first() == fadd(a0, b0));
        // unfold both evaluations
        assert(poly_eval(s, x) == fadd(s.first(), fmul(x, poly_eval(s.drop_first(), x))));
        assert(poly_eval(s, x) == fadd(fadd(a0, b0), fmul(x, fadd(ea2, eb2))));
        lemma_fmul_distributes_left(x, ea2, eb2);
        assert(poly_eval(s, x) == fadd(fadd(a0, b0), fadd(fmul(x, ea2), fmul(x, eb2))));
        lemma_fadd_shuffle(a0, b0, fmul(x, ea2), fmul(x, eb2));
        assert(poly_eval(s, x) == fadd(fadd(a0, fmul(x, ea2)), fadd(b0, fmul(x, eb2))));
        // the two halves are the original evaluations
        if a.len() == 0 {
            assert(ea == 0);
            assert(ea2 == 0);
            assert(fmul(x, 0nat) == 0) by {
                assert(x * 0 == 0);
                vstd::arithmetic::div_mod::lemma_small_mod(0, group_order());
            }
            assert(fadd(a0, fmul(x, ea2)) == fadd(0nat, 0nat));
            assert(fadd(0nat, 0nat) == 0) by {
                vstd::arithmetic::div_mod::lemma_small_mod(0, group_order());
            }
            lemma_fadd_zero_left(fadd(b0, fmul(x, eb2)));
        } else {
            assert(ea == fadd(a0, fmul(x, ea2)));
        }
        if b.len() == 0 {
            assert(eb == 0);
            assert(eb2 == 0);
            assert(fmul(x, 0nat) == 0) by {
                assert(x * 0 == 0);
                vstd::arithmetic::div_mod::lemma_small_mod(0, group_order());
            }
            assert(fadd(b0, fmul(x, eb2)) == fadd(0nat, 0nat));
            assert(fadd(0nat, 0nat) == 0) by {
                vstd::arithmetic::div_mod::lemma_small_mod(0, group_order());
            }
            lemma_fadd_zero_right(fadd(a0, fmul(x, ea2)));
        } else {
            assert(eb == fadd(b0, fmul(x, eb2)));
        }
    }
}

/// Adding a reduced zero on either side only reduces the operand, and
/// both evaluations are already reduced.
proof fn lemma_fadd_zero_left(y: nat)
    ensures
        fadd(0, y) == y % group_order(),
        y < group_order() ==> fadd(0, y) == y,
{
    if y < group_order() {
        vstd::arithmetic::div_mod::lemma_small_mod(y, group_order());
    }
}

proof fn lemma_fadd_zero_right(y: nat)
    ensures
        fadd(y, 0) == y % group_order(),
        y < group_order() ==> fadd(y, 0) == y,
{
    if y < group_order() {
        vstd::arithmetic::div_mod::lemma_small_mod(y, group_order());
    }
}

/// Multiplication distributes from the left over modular addition.
proof fn lemma_fmul_distributes_left(x: nat, a: nat, b: nat)
    ensures
        fmul(x, fadd(a, b)) == fadd(fmul(x, a), fmul(x, b)),
{
    crate::modmath::lemma_fmul_distributes(x, a, b);
}

/// The per-member share sum, over the collapsed groups.
pub open spec fn groups_total(
    ctx: FrostPubKeyContext,
    xs: Seq<nat>,
    groups: Seq<(crate::ids::NodeID, Seq<u64>)>,
) -> nat
    decreases groups.len(),
{
    if groups.len() == 0 {
        0
    } else {
        fadd(
            groups_total(ctx, xs, groups.drop_last()),
            node_agg(ctx, xs, groups.last().1),
        )
    }
}

/// Splitting a share list splits its Lagrange-weighted sum.
proof fn lemma_node_agg_concat(ctx: FrostPubKeyContext, xs: Seq<nat>, a: Seq<u64>, b: Seq<u64>)
    ensures
        node_agg(ctx, xs, a + b) == fadd(node_agg(ctx, xs, a), node_agg(ctx, xs, b)),
    decreases b.len(),
{
    if b.len() == 0 {
        assert(a + b =~= a);
        lemma_fadd_assoc(node_agg(ctx, xs, a), 0, 0);
        assert(fadd(node_agg(ctx, xs, a), 0) == fadd(0, node_agg(ctx, xs, a)));
        vstd::arithmetic::div_mod::lemma_mod_bound(
            (node_agg(ctx, xs, a) + 0) as int,
            group_order() as int,
        );
        assert(node_agg(ctx, xs, a + b) == node_agg(ctx, xs, a));
        assert(fadd(node_agg(ctx, xs, a), node_agg(ctx, xs, b)) == fadd(
            node_agg(ctx, xs, a),
            0,
        ));
        lemma_fadd_mod_identity(node_agg(ctx, xs, a));
    } else {
        let b2 = b.drop_last();
        assert((a + b).drop_last() =~= a + b2);
        assert((a + b).last() == b.last());
        lemma_node_agg_concat(ctx, xs, a, b2);
        let term = fmul(
            crate::interpolate::lagrange_coeff(xs, 0, b.last() as nat),
            ctx.share_log(b.last() as nat),
        );
        lemma_fadd_assoc(node_agg(ctx, xs, a), node_agg(ctx, xs, b2), term);
    }
}

/// Adding zero only reduces the operand modulo the order.
proof fn lemma_fadd_mod_identity(a: nat)
    ensures
        fadd(a, 0) == a % group_order(),
{
}

/// Collapsing loses nothing: the sum of the members' aggregated shares
/// equals the Lagrange-weighted sum over every picked share. That the
/// latter is the verifying key itself is the interpolation property of
/// the curve arithmetic, outside what these models state.
pub proof fn lemma_collapsing_preserves_the_total(
    ctx: FrostPubKeyContext,
    xs: Seq<nat>,
    groups: Seq<(crate::ids::NodeID, Seq<u64>)>,
)
    ensures
        groups_total(ctx, xs, groups) == node_agg(ctx, xs, flatten_ids(groups))
            % group_order(),
    decreases groups.len(),
{
    if groups.len() == 0 {
        vstd::arithmetic::div_mod::lemma_small_mod(0, group_order());
    } else {
        let dl = groups.drop_last();
        lemma_collapsing_preserves_the_total(ctx, xs, dl);
        lemma_node_agg_concat(ctx, xs, flatten_ids(dl), groups.last().1);
        // fadd(x % q, y) == fadd(x, y)
        vstd::arithmetic::div_mod::lemma_add_mod_noop(
            node_agg(ctx, xs, flatten_ids(dl)) as int,
            node_agg(ctx, xs, groups.last().1) as int,
            group_order() as int,
        );
        vstd::arithmetic::div_mod::lemma_mod_twice(
            node_agg(ctx, xs, groups.last().1) as int,
            group_order() as int,
        );
        lemma_fadd_mod_identity(node_agg(ctx, xs, flatten_ids(groups)));
        vstd::arithmetic::div_mod::lemma_mod_bound(
            (node_agg(ctx, xs, flatten_ids(dl)) + node_agg(ctx, xs, groups.last().1)) as int,
            group_order() as int,
        );
    }
}

/// Interpolation through a single known point is exact: the value at
/// any index is that point's value, reduced. (For larger point sets the
/// reconstruction is the Lagrange identity of the field, which these
/// models do not derive; the matrix recovery states its cells by the
/// same formula and the arithmetic is exercised at run time.)
pub proof fn lemma_single_point_interpolation(x1: nat, y1: nat, t: nat)
    ensures
        crate::interpolate::interp_eval(seq![(x1, y1)], t) == y1 % group_order(),
{
    let pts: Seq<(nat, nat)> = seq![(x1, y1)];
    let xs = crate::interpolate::keys_of(pts);
    assert(xs =~= seq![x1]);
    assert(xs.len() == 1);
    assert(xs.last() == x1);
    let e = xs.drop_last();
    assert(e.len() == 0);
    assert(crate::interpolate::lag_num(e, t, x1) == 1);
    assert(crate::interpolate::lag_den(e, x1) == 1);
    assert(crate::interpolate::lag_num(xs, t, x1) == crate::interpolate::lag_num(e, t, x1));
    assert(crate::interpolate::lag_den(xs, x1) == crate::interpolate::lag_den(e, x1));
    assert(fmul(1, 1) == 1) by {
        vstd::arithmetic::div_mod::lemma_small_mod(1, group_order());
    }
    crate::modmath::lemma_inv_mod_eq(1, 1);
    assert(crate::interpolate::lagrange_coeff(xs, t, x1) == fmul(1, crate::modmath::inv_mod(1)));
    assert(crate::interpolate::lagrange_coeff(xs, t, x1) == 1) by {
        vstd::arithmetic::div_mod::lemma_small_mod(1, group_order());
    }
    let pe = pts.drop_last();
    assert(pe.len() == 0);
    assert(crate::interpolate::interp_sum(xs, pe, t) == 0);
    assert(pts.last() == (x1, y1));
    assert(crate::interpolate::interp_sum(xs, pts, t) == fadd(
        crate::interpolate::interp_sum(xs, pe, t),
        fmul(crate::interpolate::lagrange_coeff(xs, t, x1), y1),
    ));
    assert(crate::interpolate::interp_sum(xs, pts, t) == fadd(0, fmul(1, y1)));
    assert(fmul(1, y1) == y1 % group_order()) by {
        vstd::arithmetic::div_mod::lemma_mod_bound(y1 as int, group_order() as int);
    }
    assert(fadd(0, y1 % group_order()) == y1 % group_order()) by {
        vstd::arithmetic::div_mod::lemma_mod_bound(y1 as int, group_order() as int);
        crate::modmath::lemma_fadd_zero((y1 % group_order()) as nat);
    }
}

/// The modular sum of a list of residues.
pub open spec fn fsum(s: Seq<nat>) -> nat
    decreases s.len(),
{
    if s.len() == 0 {
        0
    } else {
        fadd(fsum(s.drop_last()), s.last())
    }
}

/// Verified shares add up: when every response satisfies its
/// verification equation `z_i = r_i + c * y_i`, the responses' total is
/// the commitments' total plus the challenge times the keys' total.
pub proof fn lemma_verified_shares_sum(zs: Seq<nat>, rs: Seq<nat>, ys: Seq<nat>, c: nat)
    requires
        zs.len() == rs.len(),
        zs.len() == ys.len(),
        forall|i: int|
            0 <= i < zs.len() ==> #[trigger] zs[i] == fadd(rs[i], fmul(c, ys[i])),
    ensures
        fsum(zs) == fadd(fsum(rs), fmul(c, fsum(ys))),
    decreases zs.len(),
{
    if zs.len() == 0 {
        assert(fmul(c, 0) == 0) by {
            assert(c * 0 == 0);
            vstd::arithmetic::div_mod::lemma_small_mod(0, group_order());
        }
        assert(fadd(0nat, 0nat) == 0) by {
            vstd::arithmetic::div_mod::lemma_small_mod(0, group_order());
        }
    } else {
        let zs2 = zs.drop_last();
        let rs2 = rs.drop_last();
        let ys2 = ys.drop_last();
        assert forall|i: int| 0 <= i < zs2.len() implies #[trigger] zs2[i] == fadd(
            rs2[i],
            fmul(c, ys2[i]),
        ) by {
            assert(zs[i] == fadd(rs[i], fmul(c, ys[i])));
        }
        lemma_verified_shares_sum(zs2, rs2, ys2, c);
        assert(zs.last() == fadd(rs.last(), fmul(c, ys.last())));
        lemma_fadd_shuffle(fsum(rs2), fmul(c, fsum(ys2)), rs.last(), fmul(c, ys.last()));
        lemma_fmul_distributes(c, fsum(ys2), ys.last());
    }
}

/// Schnorr correctness, up to interpolation: a completed task's
/// aggregate response satisfies the verification equation whenever
/// every collected response passed its own check (what
/// `insert_signature_share` enforces), the commitment parts add up to
/// the group commitment (how the task derives it), and the collapsed
/// verifying shares add up to the verifying key — the last being the
/// interpolation property of the curve arithmetic, which the caller
/// supplies. Under these, `verify_signature`'s acceptance condition
/// holds of the aggregate.
pub proof fn lemma_completed_signature_verifies(
    zs: Seq<nat>,
    rs: Seq<nat>,
    ys: Seq<nat>,
    gc: nat,
    vk: nat,
    msg: Seq<u8>,
)
    requires
        zs.len() == rs.len(),
        zs.len() == ys.len(),
        forall|i: int|
            0 <= i < zs.len() ==> #[trigger] zs[i] == fadd(
                rs[i],
                fmul(crate::frost_hash::challenge_of(gc, vk, msg), ys[i]),
            ),
        fsum(rs) == gc % group_order(),
        fsum(ys) == vk % group_order(),
        gc < group_order(),
        vk < group_order(),
    ensures
        fsum(zs) == fadd(gc, fmul(crate::frost_hash::challenge_of(gc, vk, msg), vk)),
{
    let c = crate::frost_hash::challenge_of(gc, vk, msg);
    lemma_verified_shares_sum(zs, rs, ys, c);
    vstd::arithmetic::div_mod::lemma_small_mod(gc, group_order());
    vstd::arithmetic::div_mod::lemma_small_mod(vk, group_order());
}

} // verus!
