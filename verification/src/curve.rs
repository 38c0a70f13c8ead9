//! Trusted boundary to the secp256k1 arithmetic of the `k256` crate.
//!
//! The verified logic never looks inside a scalar or a group point. Each
//! value is described abstractly: a scalar by the field value it holds
//! (`scalar_val`), a point by its discrete logarithm with respect to the
//! standard base point (`point_log`). Both live in the integers below
//! `group_order()`, and every wrapper states how the operation acts on
//! those numbers. The group of secp256k1 points is cyclic of prime order,
//! so the discrete logarithm is a well-defined bijection onto
//! `0..group_order()`; in particular two points are equal exactly when
//! their logarithms are.

use vstd::prelude::*;
use tiny_keccak::Hasher;
use k256::elliptic_curve::group::GroupEncoding;
use k256::elliptic_curve::group::prime::PrimeCurveAffine;

verus! {

#[verifier::external_type_specification]
#[verifier::external_body]
pub struct ExScalar(k256::Scalar);

#[verifier::external_type_specification]
#[verifier::external_body]
pub struct ExProjectivePoint(k256::ProjectivePoint);

#[verifier::external_type_specification]
#[verifier::external_body]
pub struct ExAffinePoint(k256::AffinePoint);

/// The order of the secp256k1 group, a prime. Scalars and point
/// logarithms are integers below it.
pub open spec fn group_order() -> nat {
    0xFFFFFFFF_FFFFFFFF_FFFFFFFF_FFFFFFFE_BAAEDCE6_AF48A03B_BFD25E8C_D0364141nat
}

/// Addition in the integers modulo `group_order()`.
pub open spec fn fadd(a: nat, b: nat) -> nat {
    (((a + b) as int) % (group_order() as int)) as nat
}

/// Subtraction in the integers modulo `group_order()`, for operands below
/// the order.
pub open spec fn fsub(a: nat, b: nat) -> nat {
    (((a + group_order() - b) as int) % (group_order() as int)) as nat
}

/// Multiplication in the integers modulo `group_order()`.
pub open spec fn fmul(a: nat, b: nat) -> nat {
    (((a * b) as int) % (group_order() as int)) as nat
}

/// The field value a `k256::Scalar` holds, as an integer below `group_order()`.
pub uninterp spec fn scalar_val(s: k256::Scalar) -> nat;

/// The field values of a sequence of scalars.
pub open spec fn scalar_vals(s: Seq<k256::Scalar>) -> Seq<nat> {
    s.map_values(|x: k256::Scalar| scalar_val(x))
}

/// The discrete logarithm of a projective point with respect to the
/// standard base point, as an integer below `group_order()`.
pub uninterp spec fn point_log(p: k256::ProjectivePoint) -> nat;

/// The discrete logarithm of an affine point with respect to the
/// standard base point, as an integer below `group_order()`.
pub uninterp spec fn affine_log(p: k256::AffinePoint) -> nat;

/// The discrete logarithms of a sequence of projective points.
pub open spec fn point_logs(s: Seq<k256::ProjectivePoint>) -> Seq<nat> {
    s.map_values(|p: k256::ProjectivePoint| point_log(p))
}

/// The canonical 33-byte compressed encoding of the point with the given
/// discrete logarithm.
pub uninterp spec fn point_enc(log: nat) -> Seq<u8>;

/// The Keccak-256 digest of a byte string.
pub uninterp spec fn keccak256_of(data: Seq<u8>) -> Seq<u8>;

/// Relies on `k256::Scalar::from::<u64>`: embeds the integer into the field.
/// Every `u64` is below the group order, so no reduction happens.
#[verifier::external_body]
pub fn scalar_from_u64(x: u64) -> (r: k256::Scalar)
    ensures
        scalar_val(r) == x as nat,
{
    k256::Scalar::from(x)
}

/// Relies on `k256::Scalar`'s field addition.
#[verifier::external_body]
pub fn scalar_add(a: &k256::Scalar, b: &k256::Scalar) -> (r: k256::Scalar)
    ensures
        scalar_val(r) == fadd(scalar_val(*a), scalar_val(*b)),
{
    a + b
}

/// Relies on `k256::Scalar`'s field subtraction.
#[verifier::external_body]
pub fn scalar_sub(a: &k256::Scalar, b: &k256::Scalar) -> (r: k256::Scalar)
    ensures
        scalar_val(r) == fsub(scalar_val(*a), scalar_val(*b)),
{
    a - b
}

/// Relies on `k256::Scalar`'s field multiplication. The scalars form the
/// field of integers modulo the prime `group_order()`, so a product of
/// two non-zero elements is non-zero.
#[verifier::external_body]
pub fn scalar_mul(a: &k256::Scalar, b: &k256::Scalar) -> (r: k256::Scalar)
    ensures
        scalar_val(r) == fmul(scalar_val(*a), scalar_val(*b)),
        scalar_val(*a) != 0 && scalar_val(*a) < group_order() && scalar_val(*b) != 0
            && scalar_val(*b) < group_order() ==> scalar_val(r) != 0,
{
    a * b
}

/// Relies on `k256::Scalar::invert`: the multiplicative inverse of a
/// non-zero field element. The order is prime, so the inverse exists.
#[verifier::external_body]
pub fn scalar_invert(a: &k256::Scalar) -> (r: k256::Scalar)
    requires
        scalar_val(*a) != 0,
    ensures
        scalar_val(r) < group_order(),
        fmul(scalar_val(*a), scalar_val(r)) == 1,
{
    a.invert().unwrap()
}

/// Relies on `Clone for k256::Scalar`: scalars are plain data.
#[verifier::external_body]
pub fn scalar_clone(a: &k256::Scalar) -> (r: k256::Scalar)
    ensures
        scalar_val(r) == scalar_val(*a),
{
    *a
}

/// Relies on `k256::Scalar::ZERO`.
#[verifier::external_body]
pub fn scalar_zero() -> (r: k256::Scalar)
    ensures
        scalar_val(r) == 0,
{
    k256::Scalar::ZERO
}

/// Relies on `k256::Scalar::ONE`.
#[verifier::external_body]
pub fn scalar_one() -> (r: k256::Scalar)
    ensures
        scalar_val(r) == 1,
{
    k256::Scalar::ONE
}

/// Relies on `k256::Scalar::generate_biased` seeded from the operating
/// system: a fresh random scalar. Nothing is promised about the value.
#[verifier::external_body]
pub fn scalar_random() -> (r: k256::Scalar)
    ensures
        scalar_val(r) < group_order(),
{
    k256::Scalar::generate_biased(&mut rand_core::OsRng)
}

/// Relies on `k256::ProjectivePoint::IDENTITY`: the group identity, of
/// discrete logarithm zero.
#[verifier::external_body]
pub fn el_identity() -> (r: k256::ProjectivePoint)
    ensures
        point_log(r) == 0,
{
    k256::ProjectivePoint::IDENTITY
}

/// Relies on `k256::ProjectivePoint::GENERATOR`: the standard base point,
/// of discrete logarithm one.
#[verifier::external_body]
pub fn el_generator() -> (r: k256::ProjectivePoint)
    ensures
        point_log(r) == 1,
{
    k256::ProjectivePoint::GENERATOR
}

/// Relies on `k256::ProjectivePoint`'s group addition: logarithms add
/// modulo the group order.
#[verifier::external_body]
pub fn el_add(a: &k256::ProjectivePoint, b: &k256::ProjectivePoint) -> (r: k256::ProjectivePoint)
    ensures
        point_log(r) == fadd(point_log(*a), point_log(*b)),
{
    a + b
}

/// Relies on `k256::ProjectivePoint`'s scalar multiplication: the
/// logarithm is multiplied by the scalar, modulo the group order.
#[verifier::external_body]
pub fn el_mul(p: &k256::ProjectivePoint, s: &k256::Scalar) -> (r: k256::ProjectivePoint)
    ensures
        point_log(r) == fmul(scalar_val(*s), point_log(*p)),
{
    p * s
}

/// Relies on `k256::ProjectivePoint`'s multiplication of the standard
/// base point: the point whose discrete logarithm is the given scalar.
#[verifier::external_body]
pub fn el_mul_base(s: &k256::Scalar) -> (r: k256::ProjectivePoint)
    ensures
        point_log(r) == scalar_val(*s),
{
    k256::ProjectivePoint::GENERATOR * s
}

/// Relies on `k256::ProjectivePoint`'s equality, which compares the group
/// element (not the projective coordinates): points are equal exactly when
/// their discrete logarithms are.
#[verifier::external_body]
pub fn el_eq(a: &k256::ProjectivePoint, b: &k256::ProjectivePoint) -> (r: bool)
    ensures
        r <==> point_log(*a) == point_log(*b),
{
    a == b
}

/// Relies on `Clone for k256::ProjectivePoint`: points are plain data.
#[verifier::external_body]
pub fn el_clone(a: &k256::ProjectivePoint) -> (r: k256::ProjectivePoint)
    ensures
        point_log(r) == point_log(*a),
{
    *a
}

/// Relies on `k256::ProjectivePoint::to_affine`: the same group element in
/// affine coordinates.
#[verifier::external_body]
pub fn el_to_affine(p: &k256::ProjectivePoint) -> (r: k256::AffinePoint)
    ensures
        affine_log(r) == point_log(*p),
{
    p.to_affine()
}

/// Relies on `k256::AffinePoint::to_curve`: the same group element in
/// projective coordinates.
#[verifier::external_body]
pub fn affine_to_el(p: &k256::AffinePoint) -> (r: k256::ProjectivePoint)
    ensures
        point_log(r) == affine_log(*p),
{
    p.to_curve()
}

/// Relies on `GroupEncoding::to_bytes` for `k256::AffinePoint`: the
/// canonical 33-byte compressed encoding, a function of the point alone.
#[verifier::external_body]
pub fn affine_bytes(p: &k256::AffinePoint) -> (r: Vec<u8>)
    ensures
        r@ == point_enc(affine_log(*p)),
        r@.len() == 33,
{
    p.to_bytes().to_vec()
}

/// The canonical 32-byte big-endian encoding of the scalar with the
/// given value: byte `i` holds the `(31 - i)`-th base-256 digit.
pub open spec fn scalar_enc(val: nat) -> Seq<u8> {
    Seq::new(32, |i: int| ((val / pow256((31 - i) as nat)) % 256) as u8)
}

/// Powers of 256.
pub open spec fn pow256(e: nat) -> nat
    decreases e,
{
    if e == 0 {
        1
    } else {
        256 * pow256((e - 1) as nat)
    }
}

/// Relies on `k256::Scalar::to_bytes`: the canonical 32-byte big-endian
/// encoding, a function of the value alone.
#[verifier::external_body]
pub fn scalar_bytes(s: &k256::Scalar) -> (r: Vec<u8>)
    ensures
        r@ == scalar_enc(scalar_val(*s)),
        r@.len() == 32,
{
    s.to_bytes().to_vec()
}

/// Relies on `GroupEncoding::to_bytes` after `to_affine`: the canonical
/// 33-byte compressed encoding of the point.
#[verifier::external_body]
pub fn el_bytes(p: &k256::ProjectivePoint) -> (r: Vec<u8>)
    ensures
        r@ == point_enc(point_log(*p)),
        r@.len() == 33,
{
    p.to_affine().to_bytes().to_vec()
}

/// Relies on `tiny_keccak::Keccak::v256` (with `update` and `finalize`):
/// the Keccak-256 digest, a function of the input bytes alone.
#[verifier::external_body]
pub fn keccak256(data: &Vec<u8>) -> (r: Vec<u8>)
    ensures
        r@ == keccak256_of(data@),
        r@.len() == 32,
{
    let mut hasher = tiny_keccak::Keccak::v256();
    hasher.update(data.as_slice());
    let mut out = [0u8; 32];
    hasher.finalize(&mut out);
    out.to_vec()
}

} // verus!
