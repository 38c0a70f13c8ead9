//! Lagrange interpolation over indexed points.
//!
//! Point indices double as evaluation points on the scalar field (index
//! zero is the secret's reserved evaluation point). Given enough known
//! points of a polynomial — scalars, or group elements carrying the
//! polynomial in the exponent — the value at any other index is the
//! Lagrange-weighted sum of the known ones.

use vstd::prelude::*;
use crate::curve::{
    el_add, el_identity, el_mul, fadd, fmul, fsub, group_order, point_log, scalar_add,
    scalar_invert, scalar_mul, scalar_one, scalar_sub, scalar_val, scalar_zero,
};
use crate::ids::num_to_identifier;
use crate::modmath::{inv_mod, lemma_fmul_bound, lemma_fsub_nonzero, lemma_inv_mod_eq};

verus! {

/// Numerator of the Lagrange coefficient for the point at `xi`, target
/// `x`: the product of `x - x_j` over the other indices.
pub open spec fn lag_num(xs: Seq<nat>, x: nat, xi: nat) -> nat
    decreases xs.len(),
{
    if xs.len() == 0 {
        1
    } else {
        let rest = lag_num(xs.drop_last(), x, xi);
        if xs.last() == xi {
            rest
        } else {
            fmul(rest, fsub(x, xs.last()))
        }
    }
}

/// Denominator of the Lagrange coefficient for the point at `xi`: the
/// product of `xi - x_j` over the other indices.
pub open spec fn lag_den(xs: Seq<nat>, xi: nat) -> nat
    decreases xs.len(),
{
    if xs.len() == 0 {
        1
    } else {
        let rest = lag_den(xs.drop_last(), xi);
        if xs.last() == xi {
            rest
        } else {
            fmul(rest, fsub(xi, xs.last()))
        }
    }
}

/// The Lagrange coefficient of the point at `xi` for evaluating at `x`,
/// with respect to the index set `xs`.
pub open spec fn lagrange_coeff(xs: Seq<nat>, x: nat, xi: nat) -> nat {
    fmul(lag_num(xs, x, xi), inv_mod(lag_den(xs, xi)))
}

/// The Lagrange-weighted sum of the points' values, with coefficients
/// taken with respect to the index set `xs`.
pub open spec fn interp_sum(xs: Seq<nat>, points: Seq<(nat, nat)>, x: nat) -> nat
    decreases points.len(),
{
    if points.len() == 0 {
        0
    } else {
        fadd(
            interp_sum(xs, points.drop_last(), x),
            fmul(lagrange_coeff(xs, x, points.last().0), points.last().1),
        )
    }
}

/// The index set of a point list.
pub open spec fn keys_of(points: Seq<(nat, nat)>) -> Seq<nat> {
    points.map_values(|p: (nat, nat)| p.0)
}

/// The interpolation of the known points, evaluated at `x`.
pub open spec fn interp_eval(points: Seq<(nat, nat)>, x: nat) -> nat {
    interp_sum(keys_of(points), points, x)
}

/// Whether the index list holds the value.
pub open spec fn among_targets(targets: Seq<usize>, x: usize) -> bool {
    exists|m: int| 0 <= m < targets.len() && (#[trigger] targets[m]) == x
}

/// Whether some point carries the index `x`.
pub open spec fn contains_key(points: Seq<(nat, nat)>, x: nat) -> bool {
    exists|j: int| 0 <= j < points.len() && points[j].0 == x
}

/// The spec-level image of a list of indexed group elements.
pub open spec fn point_model(s: Seq<(usize, k256::ProjectivePoint)>) -> Seq<(nat, nat)> {
    s.map_values(|p: (usize, k256::ProjectivePoint)| (p.0 as nat, point_log(p.1)))
}

/// The spec-level image of a list of indexed scalars.
pub open spec fn scalar_model(s: Seq<(usize, k256::Scalar)>) -> Seq<(nat, nat)> {
    s.map_values(|p: (usize, k256::Scalar)| (p.0 as nat, scalar_val(p.1)))
}

/// The Lagrange coefficient's numerator and denominator for the point at
/// index `xi`, target `x`, over the index set `keys`. The denominator is
/// a product of non-zero factors, hence non-zero.
fn lagrange_partial(keys: &Vec<usize>, x: usize, xi: usize) -> (r: (k256::Scalar, k256::Scalar))
    ensures
        scalar_val(r.0) == lag_num(keys@.map_values(|u: usize| u as nat), x as nat, xi as nat),
        scalar_val(r.1) == lag_den(keys@.map_values(|u: usize| u as nat), xi as nat),
        scalar_val(r.1) != 0,
        scalar_val(r.1) < group_order(),
{
    let ghost xs = keys@.map_values(|u: usize| u as nat);
    let x_s = num_to_identifier(x);
    let xi_s = num_to_identifier(xi);
    let mut num = scalar_one();
    let mut den = scalar_one();
    let mut j: usize = 0;
    proof {
        assert(xs.take(0) =~= Seq::<nat>::empty());
    }
    while j < keys.len()
        invariant
            0 <= j <= keys@.len(),
            xs == keys@.map_values(|u: usize| u as nat),
            xs.len() == keys@.len(),
            scalar_val(x_s) == x as nat,
            scalar_val(xi_s) == xi as nat,
            scalar_val(num) == lag_num(xs.take(j as int), x as nat, xi as nat),
            scalar_val(den) == lag_den(xs.take(j as int), xi as nat),
            scalar_val(den) != 0,
            scalar_val(den) < group_order(),
        decreases keys@.len() - j,
    {
        proof {
            assert(xs.take(j + 1).drop_last() =~= xs.take(j as int));
            assert(xs.take(j + 1).last() == xs[j as int]);
        }
        if keys[j] != xi {
            let key_s = num_to_identifier(keys[j]);
            let num_factor = scalar_sub(&x_s, &key_s);
            let den_factor = scalar_sub(&xi_s, &key_s);
            proof {
                lemma_fsub_nonzero(xi as nat, keys@[j as int] as nat);
                lemma_fmul_bound(scalar_val(den), scalar_val(den_factor));
            }
            num = scalar_mul(&num, &num_factor);
            den = scalar_mul(&den, &den_factor);
        }
        j = j + 1;
    }
    proof {
        assert(xs.take(xs.len() as int) =~= xs);
    }
    (num, den)
}

/// The Lagrange coefficient itself, as a scalar.
pub fn lagrange_coefficient_exec(keys: &Vec<usize>, x: usize, xi: usize) -> (r: k256::Scalar)
    ensures
        scalar_val(r) == lagrange_coeff(
            keys@.map_values(|u: usize| u as nat),
            x as nat,
            xi as nat,
        ),
{
    let (num, den) = lagrange_partial(keys, x, xi);
    let inv = scalar_invert(&den);
    proof {
        lemma_inv_mod_eq(scalar_val(den), scalar_val(inv));
    }
    scalar_mul(&num, &inv)
}

/// Interpolates the known group elements and evaluates at index `x`.
fn interpolate_points_one(points: &Vec<(usize, k256::ProjectivePoint)>, x: usize) -> (r:
    k256::ProjectivePoint)
    ensures
        point_log(r) == interp_eval(point_model(points@), x as nat),
{
    let ghost model = point_model(points@);
    let ghost xs = keys_of(model);
    let mut keys: Vec<usize> = Vec::new();
    let mut i: usize = 0;
    while i < points.len()
        invariant
            0 <= i <= points@.len(),
            keys@.len() == i,
            forall|k: int| 0 <= k < i ==> keys@[k] == points@[k].0,
        decreases points@.len() - i,
    {
        keys.push(points[i].0);
        i = i + 1;
    }
    proof {
        assert(keys@.map_values(|u: usize| u as nat) =~= xs);
        assert(model.take(0) =~= Seq::<(nat, nat)>::empty());
    }

    let mut acc = el_identity();
    let mut i: usize = 0;
    while i < points.len()
        invariant
            0 <= i <= points@.len(),
            model == point_model(points@),
            model.len() == points@.len(),
            xs == keys_of(model),
            keys@.map_values(|u: usize| u as nat) == xs,
            point_log(acc) == interp_sum(xs, model.take(i as int), x as nat),
        decreases points@.len() - i,
    {
        let coeff = lagrange_coefficient_exec(&keys, x, points[i].0);
        let term = el_mul(&points[i].1, &coeff);
        acc = el_add(&acc, &term);
        proof {
            assert(model.take(i + 1).drop_last() =~= model.take(i as int));
            assert(model.take(i + 1).last() == model[i as int]);
        }
        i = i + 1;
    }
    proof {
        assert(model.take(model.len() as int) =~= model);
    }
    acc
}

/// Interpolates the known points at every requested index that is not
/// already known: the result pairs each such index with the interpolated
/// element. Indices that are already known are left out.
pub fn interpolate_and_evaluate_points(
    input_points: &Vec<(usize, k256::ProjectivePoint)>,
    to_evaluate: &Vec<usize>,
) -> (r: Vec<(usize, k256::ProjectivePoint)>)
    requires
        input_points@.len() > 0,
    ensures
        forall|k: int|
            0 <= k < r@.len() ==> point_log((#[trigger] r@[k]).1) == interp_eval(
                point_model(input_points@),
                r@[k].0 as nat,
            ),
        forall|k: int|
            0 <= k < r@.len() ==> !contains_key(
                point_model(input_points@),
                (#[trigger] r@[k]).0 as nat,
            ),
        forall|k: int|
            0 <= k < r@.len() ==> among_targets(to_evaluate@, (#[trigger] r@[k]).0),
        forall|m: int|
            0 <= m < to_evaluate@.len() && !contains_key(
                point_model(input_points@),
                (#[trigger] to_evaluate@[m]) as nat,
            ) ==> exists|k: int| 0 <= k < r@.len() && r@[k].0 == to_evaluate@[m],
{
    let ghost model = point_model(input_points@);
    let mut out: Vec<(usize, k256::ProjectivePoint)> = Vec::new();
    let mut m: usize = 0;
    while m < to_evaluate.len()
        invariant
            0 <= m <= to_evaluate@.len(),
            model == point_model(input_points@),
            input_points@.len() > 0,
            forall|k: int|
                0 <= k < out@.len() ==> point_log((#[trigger] out@[k]).1) == interp_eval(
                    model,
                    out@[k].0 as nat,
                ),
            forall|k: int|
                0 <= k < out@.len() ==> !contains_key(model, (#[trigger] out@[k]).0 as nat),
            forall|k: int|
                0 <= k < out@.len() ==> among_targets(to_evaluate@, (#[trigger] out@[k]).0),
            forall|m2: int|
                0 <= m2 < m && !contains_key(model, (#[trigger] to_evaluate@[m2]) as nat)
                    ==> exists|k: int| 0 <= k < out@.len() && out@[k].0 == to_evaluate@[m2],
        decreases to_evaluate@.len() - m,
    {
        let target = to_evaluate[m];
        let mut known: bool = false;
        let mut j: usize = 0;
        while j < input_points.len()
            invariant
                0 <= j <= input_points@.len(),
                model == point_model(input_points@),
                model.len() == input_points@.len(),
                known ==> contains_key(model, target as nat),
                !known ==> forall|k: int| 0 <= k < j ==> model[k].0 != target as nat,
            decreases input_points@.len() - j,
        {
            if input_points[j].0 == target {
                known = true;
                proof {
                    assert(model[j as int].0 == target as nat);
                }
            }
            j = j + 1;
        }
        let ghost old_out = out@;
        if !known {
            let value = interpolate_points_one(input_points, target);
            out.push((target, value));
        }
        proof {
            if !known {
                assert(!contains_key(model, target as nat));
                assert(out@[out@.len() - 1].0 == target);
                assert((#[trigger] to_evaluate@[m as int]) == out@[out@.len() - 1].0);
            }
            assert forall|k: int|
                0 <= k < out@.len() implies among_targets(
                    to_evaluate@,
                    (#[trigger] out@[k]).0,
                ) by {
                if k < old_out.len() {
                    assert(out@[k] == old_out[k]);
                    assert(among_targets(to_evaluate@, old_out[k].0));
                } else {
                    assert((#[trigger] to_evaluate@[m as int]) == out@[k].0);
                    assert(among_targets(to_evaluate@, out@[k].0));
                }
            }
            assert forall|m2: int|
                0 <= m2 < m + 1 && !contains_key(model, (#[trigger] to_evaluate@[m2]) as nat)
                    implies exists|k: int| 0 <= k < out@.len() && out@[k].0 == to_evaluate@[m2] by {
                if m2 < m {
                    let k = choose|k: int|
                        0 <= k < old_out.len() && old_out[k].0 == to_evaluate@[m2];
                    assert(out@[k].0 == to_evaluate@[m2]);
                } else if !known {
                    assert(out@[out@.len() - 1].0 == to_evaluate@[m2]);
                }
            }
        }
        m = m + 1;
    }
    out
}

/// Reconstructs the secret evaluation (index zero) from known scalar
/// shares. The known indices are positive, so index zero is never among
/// them.
pub fn interpolate_and_evaluate_share(input_points: &Vec<(usize, k256::Scalar)>) -> (r:
    k256::Scalar)
    requires
        input_points@.len() > 0,
        forall|j: int| 0 <= j < input_points@.len() ==> (#[trigger] input_points@[j]).0 > 0,
    ensures
        scalar_val(r) == interp_eval(scalar_model(input_points@), 0),
{
    let ghost model = scalar_model(input_points@);
    let ghost xs = keys_of(model);
    let mut keys: Vec<usize> = Vec::new();
    let mut i: usize = 0;
    while i < input_points.len()
        invariant
            0 <= i <= input_points@.len(),
            keys@.len() == i,
            forall|k: int| 0 <= k < i ==> keys@[k] == input_points@[k].0,
        decreases input_points@.len() - i,
    {
        keys.push(input_points[i].0);
        i = i + 1;
    }
    proof {
        assert(keys@.map_values(|u: usize| u as nat) =~= xs);
        assert(model.take(0) =~= Seq::<(nat, nat)>::empty());
    }

    let mut acc = scalar_zero();
    let mut i: usize = 0;
    while i < input_points.len()
        invariant
            0 <= i <= input_points@.len(),
            model == scalar_model(input_points@),
            model.len() == input_points@.len(),
            xs == keys_of(model),
            keys@.map_values(|u: usize| u as nat) == xs,
            scalar_val(acc) == interp_sum(xs, model.take(i as int), 0),
        decreases input_points@.len() - i,
    {
        let coeff = lagrange_coefficient_exec(&keys, 0, input_points[i].0);
        let term = scalar_mul(&coeff, &input_points[i].1);
        acc = scalar_add(&acc, &term);
        proof {
            assert(model.take(i + 1).drop_last() =~= model.take(i as int));
            assert(model.take(i + 1).last() == model[i as int]);
        }
        i = i + 1;
    }
    proof {
        assert(model.take(model.len() as int) =~= model);
    }
    acc
}

} // verus!
