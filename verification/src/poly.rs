//! Feldman polynomial commitments.
//!
//! A dealer commits to a secret polynomial `f(x) = s_0 + s_1 x + ... + s_d x^d`
//! by publishing the points `C_i = s_i * G`. Evaluating the commitment at
//! `x` "in the exponent" gives `VSS(x) = sum C_i * x^i`, the point whose
//! logarithm is `f(x)`; a share `f(v)` is consistent with the commitment
//! exactly when `VSS(v) == f(v) * G`.

use vstd::prelude::*;
use crate::curve::{
    affine_bytes, affine_log, affine_to_el, el_add, el_clone, el_eq, el_identity, el_mul,
    el_mul_base, el_to_affine, fadd, fmul, keccak256, keccak256_of, point_enc, point_log,
    scalar_add, scalar_clone, scalar_mul, scalar_random, scalar_val,
};
use crate::ids::VoteID;

verus! {

/// Polynomial evaluation over the residues modulo the group order, by the
/// Horner scheme: `eval(c, x) = c_0 + x * eval(c[1..], x)`.
pub open spec fn poly_eval(coeffs: Seq<nat>, x: nat) -> nat
    decreases coeffs.len(),
{
    if coeffs.len() == 0 {
        0
    } else {
        fadd(coeffs.first(), fmul(x, poly_eval(coeffs.drop_first(), x)))
    }
}

/// Coefficient-wise modular sum of two coefficient sequences, the shorter
/// one padded with zeroes.
pub open spec fn pc_add(a: Seq<nat>, b: Seq<nat>) -> Seq<nat> {
    Seq::new(
        if a.len() < b.len() { b.len() } else { a.len() },
        |i: int|
            fadd(
                if i < a.len() { a[i] } else { 0 },
                if i < b.len() { b[i] } else { 0 },
            ),
    )
}

/// The byte string hashed ahead of the points of a commitment.
pub open spec fn commitment_tag() -> Seq<u8> {
    seq![
        0x63u8, 0x66u8, 0x78u8, 0x2du8, 0x70u8, 0x72u8, 0x6fu8, 0x6du8, 0x69u8, 0x73u8, 0x65u8,
        0x2du8, 0x70u8, 0x6fu8, 0x6cu8, 0x79u8, 0x6eu8, 0x6fu8, 0x6du8, 0x69u8, 0x61u8, 0x6cu8,
        0x2du8, 0x63u8, 0x6fu8, 0x6du8, 0x6du8, 0x69u8, 0x74u8, 0x6du8, 0x65u8, 0x6eu8, 0x74u8,
        0x2du8, 0x73u8, 0x65u8, 0x63u8, 0x70u8, 0x32u8, 0x35u8, 0x36u8, 0x6bu8, 0x31u8,
    ]
}

/// The canonical encodings of the points with the given logarithms, one
/// after the other.
pub open spec fn enc_concat(logs: Seq<nat>) -> Seq<u8>
    decreases logs.len(),
{
    if logs.len() == 0 {
        Seq::empty()
    } else {
        enc_concat(logs.drop_last()) + point_enc(logs.last())
    }
}

/// The stable identifier of a commitment: the Keccak-256 digest of the
/// domain tag followed by each point's canonical encoding.
pub open spec fn commitment_hash_of(logs: Seq<nat>) -> Seq<u8> {
    keccak256_of(commitment_tag() + enc_concat(logs))
}

/// A 256-bit digest.
pub struct H256 {
    bytes: Vec<u8>,
}

impl H256 {
    pub closed spec fn view(&self) -> Seq<u8> {
        self.bytes@
    }

    pub fn from_bytes(bytes: Vec<u8>) -> (r: H256)
        ensures
            r@ == bytes@,
    {
        H256 { bytes }
    }

    pub fn as_bytes(&self) -> (r: &Vec<u8>)
        ensures
            r@ == self@,
    {
        &self.bytes
    }

    pub fn clone(&self) -> (r: H256)
        ensures
            r@ == self@,
    {
        let mut out: Vec<u8> = Vec::new();
        let mut i: usize = 0;
        while i < self.bytes.len()
            invariant
                0 <= i <= self.bytes@.len(),
                out@ == self.bytes@.take(i as int),
            decreases self.bytes@.len() - i,
        {
            out.push(self.bytes[i]);
            proof {
                assert(out@ =~= self.bytes@.take(i + 1));
            }
            i = i + 1;
        }
        proof {
            assert(self.bytes@.take(self.bytes@.len() as int) =~= self.bytes@);
        }
        H256 { bytes: out }
    }

    /// Byte-wise equality of digests.
    pub fn eq_hash(&self, other: &H256) -> (r: bool)
        ensures
            r <==> self@ == other@,
    {
        if self.bytes.len() != other.bytes.len() {
            proof {
                assert(self@.len() != other@.len());
            }
            return false;
        }
        let mut i: usize = 0;
        while i < self.bytes.len()
            invariant
                0 <= i <= self.bytes@.len(),
                self.bytes@.len() == other.bytes@.len(),
                forall|k: int| 0 <= k < i ==> self.bytes@[k] == other.bytes@[k],
            decreases self.bytes@.len() - i,
        {
            if self.bytes[i] != other.bytes[i] {
                return false;
            }
            i = i + 1;
        }
        proof {
            assert(self@ =~= other@);
        }
        true
    }
}

/// A Feldman commitment in projective coordinates: the committed
/// polynomial's coefficients, in the exponent.
pub struct PolynomialCommitment {
    coeffs: Vec<k256::ProjectivePoint>,
}

impl PolynomialCommitment {
    /// The coefficient points, as their discrete logarithms: the committed
    /// polynomial itself.
    pub closed spec fn logs(&self) -> Seq<nat> {
        self.coeffs@.map_values(|p: k256::ProjectivePoint| point_log(p))
    }

    pub fn new(coeffs: Vec<k256::ProjectivePoint>) -> (r: PolynomialCommitment)
        ensures
            r.logs() == coeffs@.map_values(|p: k256::ProjectivePoint| point_log(p)),
    {
        PolynomialCommitment { coeffs }
    }

    pub fn len(&self) -> (r: usize)
        ensures
            r == self.logs().len(),
    {
        self.coeffs.len()
    }

    pub fn clone(&self) -> (r: PolynomialCommitment)
        ensures
            r.logs() == self.logs(),
    {
        let mut out: Vec<k256::ProjectivePoint> = Vec::new();
        let mut i: usize = 0;
        while i < self.coeffs.len()
            invariant
                0 <= i <= self.coeffs@.len(),
                out@.len() == i,
                forall|k: int| 0 <= k < i ==> point_log(#[trigger] out@[k]) == self.logs()[k],
            decreases self.coeffs@.len() - i,
        {
            out.push(el_clone(&self.coeffs[i]));
            i = i + 1;
        }
        let r = PolynomialCommitment { coeffs: out };
        proof {
            assert(r.logs() =~= self.logs());
        }
        r
    }

    /// The committed secret: the constant coefficient, the identity when
    /// the commitment is empty.
    pub fn constant_term(&self) -> (r: k256::ProjectivePoint)
        ensures
            point_log(r) == if self.logs().len() == 0 { 0nat } else { self.logs()[0] },
    {
        if self.coeffs.len() == 0 {
            el_identity()
        } else {
            el_clone(&self.coeffs[0])
        }
    }

    /// Evaluates the commitment in the exponent: the point whose logarithm
    /// is the committed polynomial at `x`.
    pub fn evaluate(&self, x: &k256::Scalar) -> (r: k256::ProjectivePoint)
        ensures
            point_log(r) == poly_eval(self.logs(), scalar_val(*x)),
    {
        let ghost logs = self.logs();
        let mut acc = el_identity();
        let mut i: usize = self.coeffs.len();
        proof {
            assert(logs.skip(i as int) =~= Seq::<nat>::empty());
        }
        while i > 0
            invariant
                0 <= i <= self.coeffs@.len(),
                logs == self.logs(),
                logs.len() == self.coeffs@.len(),
                point_log(acc) == poly_eval(logs.skip(i as int), scalar_val(*x)),
            decreases i,
        {
            i = i - 1;
            let scaled = el_mul(&acc, x);
            acc = el_add(&self.coeffs[i], &scaled);
            proof {
                assert(logs.skip(i as int).drop_first() =~= logs.skip(i as int + 1));
                assert(logs.skip(i as int).first() == logs[i as int]);
            }
        }
        proof {
            assert(logs.skip(0) =~= logs);
        }
        acc
    }

    /// The same commitment in affine coordinates.
    pub fn to_affine(&self) -> (r: AffinePolynomialCommitment)
        ensures
            r.logs() == self.logs(),
    {
        let mut points: Vec<k256::AffinePoint> = Vec::new();
        let mut i: usize = 0;
        while i < self.coeffs.len()
            invariant
                0 <= i <= self.coeffs@.len(),
                points@.len() == i,
                forall|k: int| 0 <= k < i ==> affine_log(#[trigger] points@[k]) == self.logs()[k],
            decreases self.coeffs@.len() - i,
        {
            points.push(el_to_affine(&self.coeffs[i]));
            i = i + 1;
        }
        let r = AffinePolynomialCommitment { points };
        proof {
            assert(r.logs() =~= self.logs());
        }
        r
    }
}

/// A Feldman commitment in affine coordinates, the form that is hashed
/// and sent over the wire.
pub struct AffinePolynomialCommitment {
    points: Vec<k256::AffinePoint>,
}

impl AffinePolynomialCommitment {
    /// The coefficient points, as their discrete logarithms.
    pub closed spec fn logs(&self) -> Seq<nat> {
        self.points@.map_values(|p: k256::AffinePoint| affine_log(p))
    }

    pub fn new(points: Vec<k256::AffinePoint>) -> (r: AffinePolynomialCommitment)
        ensures
            r.logs() == points@.map_values(|p: k256::AffinePoint| affine_log(p)),
    {
        AffinePolynomialCommitment { points }
    }

    pub fn len(&self) -> (r: usize)
        ensures
            r == self.logs().len(),
    {
        self.points.len()
    }

    pub fn clone(&self) -> (r: AffinePolynomialCommitment)
        ensures
            r.logs() == self.logs(),
    {
        let mut points: Vec<k256::AffinePoint> = Vec::new();
        let mut i: usize = 0;
        while i < self.points.len()
            invariant
                0 <= i <= self.points@.len(),
                points@ == self.points@.take(i as int),
            decreases self.points@.len() - i,
        {
            let p = self.points[i];
            points.push(p);
            proof {
                assert(points@ =~= self.points@.take(i + 1));
            }
            i = i + 1;
        }
        proof {
            assert(self.points@.take(self.points@.len() as int) =~= self.points@);
        }
        AffinePolynomialCommitment { points }
    }

    /// The same commitment in projective coordinates.
    pub fn to_projective(&self) -> (r: PolynomialCommitment)
        ensures
            r.logs() == self.logs(),
    {
        let mut coeffs: Vec<k256::ProjectivePoint> = Vec::new();
        let mut i: usize = 0;
        while i < self.points.len()
            invariant
                0 <= i <= self.points@.len(),
                coeffs@.len() == i,
                forall|k: int| 0 <= k < i ==> point_log(#[trigger] coeffs@[k]) == self.logs()[k],
            decreases self.points@.len() - i,
        {
            coeffs.push(affine_to_el(&self.points[i]));
            i = i + 1;
        }
        let r = PolynomialCommitment { coeffs };
        proof {
            assert(r.logs() =~= self.logs());
        }
        r
    }

    /// The stable identifier of the commitment: Keccak-256 over the domain
    /// tag followed by each point's canonical encoding.
    pub fn hash(&self) -> (r: H256)
        ensures
            r@ == commitment_hash_of(self.logs()),
    {
        let mut data = tag_bytes();
        let mut i: usize = 0;
        proof {
            assert(enc_concat(self.logs().take(0)) =~= Seq::<u8>::empty());
            assert(data@ =~= commitment_tag() + enc_concat(self.logs().take(0)));
        }
        while i < self.points.len()
            invariant
                0 <= i <= self.points@.len(),
                self.logs().len() == self.points@.len(),
                data@ == commitment_tag() + enc_concat(self.logs().take(i as int)),
            decreases self.points@.len() - i,
        {
            let mut part = affine_bytes(&self.points[i]);
            data.append(&mut part);
            proof {
                assert(self.logs().take(i + 1).drop_last() =~= self.logs().take(i as int));
                assert(self.logs().take(i + 1).last() == self.logs()[i as int]);
                assert(data@ =~= commitment_tag() + enc_concat(self.logs().take(i + 1)));
            }
            i = i + 1;
        }
        proof {
            assert(self.logs().take(self.logs().len() as int) =~= self.logs());
        }
        H256::from_bytes(keccak256(&data))
    }
}

/// The domain tag as bytes.
fn tag_bytes() -> (r: Vec<u8>)
    ensures
        r@ == commitment_tag(),
{
    let mut v: Vec<u8> = Vec::new();
    v.push(0x63u8); v.push(0x66u8); v.push(0x78u8); v.push(0x2du8); v.push(0x70u8);
    v.push(0x72u8); v.push(0x6fu8); v.push(0x6du8); v.push(0x69u8); v.push(0x73u8);
    v.push(0x65u8); v.push(0x2du8); v.push(0x70u8); v.push(0x6fu8); v.push(0x6cu8);
    v.push(0x79u8); v.push(0x6eu8); v.push(0x6fu8); v.push(0x6du8); v.push(0x69u8);
    v.push(0x61u8); v.push(0x6cu8); v.push(0x2du8); v.push(0x63u8); v.push(0x6fu8);
    v.push(0x6du8); v.push(0x6du8); v.push(0x69u8); v.push(0x74u8); v.push(0x6du8);
    v.push(0x65u8); v.push(0x6eu8); v.push(0x74u8); v.push(0x2du8); v.push(0x73u8);
    v.push(0x65u8); v.push(0x63u8); v.push(0x70u8); v.push(0x32u8); v.push(0x35u8);
    v.push(0x36u8); v.push(0x6bu8); v.push(0x31u8);
    proof {
        assert(v@ =~= commitment_tag());
    }
    v
}

/// Coefficient-wise sum of two commitments, the shorter padded with the
/// identity: commits to the sum of the two polynomials.
pub fn add_commitment(a: &PolynomialCommitment, b: &PolynomialCommitment) -> (r: PolynomialCommitment)
    ensures
        r.logs() == pc_add(a.logs(), b.logs()),
{
    let a_len = a.coeffs.len();
    let b_len = b.coeffs.len();
    let length = if a_len < b_len { b_len } else { a_len };
    let mut out: Vec<k256::ProjectivePoint> = Vec::new();
    let mut i: usize = 0;
    while i < length
        invariant
            0 <= i <= length,
            a_len == a.logs().len(),
            b_len == b.logs().len(),
            length == if a_len < b_len { b_len } else { a_len },
            out@.len() == i,
            forall|k: int| 0 <= k < i ==> point_log(#[trigger] out@[k]) == pc_add(a.logs(), b.logs())[k],
        decreases length - i,
    {
        let a_i = if i < a_len { el_clone(&a.coeffs[i]) } else { el_identity() };
        let b_i = if i < b_len { el_clone(&b.coeffs[i]) } else { el_identity() };
        out.push(el_add(&a_i, &b_i));
        i = i + 1;
    }
    let r = PolynomialCommitment { coeffs: out };
    proof {
        assert(r.logs() =~= pc_add(a.logs(), b.logs()));
    }
    r
}

/// Samples a polynomial of the given degree (the constant coefficient
/// fixed by `shared_input` when given), and returns its Feldman commitment
/// together with, per vote, the share `f(v)` and the share's public point
/// `f(v) * G`. Every share is consistent with the commitment by
/// construction.
pub fn generate_polynomial_commitments(
    degree: usize,
    vote_ids: &Vec<VoteID>,
    shared_input: Option<&k256::Scalar>,
) -> (r: (PolynomialCommitment, Vec<(VoteID, k256::Scalar, k256::ProjectivePoint)>))
    requires
        degree < usize::MAX,
    ensures
        r.0.logs().len() == degree + 1,
        (match shared_input {
            Some(s) => r.0.logs()[0] == scalar_val(*s),
            None => true,
        }),
        r.1@.len() == vote_ids@.len(),
        forall|k: int| 0 <= k < r.1@.len() ==> (#[trigger] r.1@[k]).0 == vote_ids@[k],
        forall|k: int|
            0 <= k < r.1@.len() ==> scalar_val((#[trigger] r.1@[k]).1) == poly_eval(
                r.0.logs(),
                r.1@[k].0.0 as nat,
            ),
        forall|k: int|
            0 <= k < r.1@.len() ==> point_log((#[trigger] r.1@[k]).2) == poly_eval(
                r.0.logs(),
                r.1@[k].0.0 as nat,
            ),
{
    let constant = match shared_input {
        Some(s) => scalar_clone(s),
        None => scalar_random(),
    };
    let ghost c_val = scalar_val(constant);
    let mut scalars: Vec<k256::Scalar> = Vec::new();
    scalars.push(constant);
    let mut j: usize = 0;
    while j < degree
        invariant
            0 <= j <= degree,
            scalars@.len() == j + 1,
            scalar_val(scalars@[0]) == c_val,
        decreases degree - j,
    {
        scalars.push(scalar_random());
        j = j + 1;
    }

    let mut coeffs: Vec<k256::ProjectivePoint> = Vec::new();
    let mut j: usize = 0;
    while j < scalars.len()
        invariant
            0 <= j <= scalars@.len(),
            coeffs@.len() == j,
            forall|k: int|
                0 <= k < j ==> point_log(#[trigger] coeffs@[k]) == scalar_val(scalars@[k]),
        decreases scalars@.len() - j,
    {
        coeffs.push(el_mul_base(&scalars[j]));
        j = j + 1;
    }
    let pc = PolynomialCommitment { coeffs };
    proof {
        assert(pc.logs() =~= scalars@.map_values(|s: k256::Scalar| scalar_val(s)));
        assert(pc.logs()[0] == c_val);
    }

    let mut shares: Vec<(VoteID, k256::Scalar, k256::ProjectivePoint)> = Vec::new();
    let mut k: usize = 0;
    while k < vote_ids.len()
        invariant
            0 <= k <= vote_ids@.len(),
            shares@.len() == k,
            forall|m: int| 0 <= m < k ==> (#[trigger] shares@[m]).0 == vote_ids@[m],
            forall|m: int|
                0 <= m < k ==> scalar_val((#[trigger] shares@[m]).1) == poly_eval(
                    pc.logs(),
                    shares@[m].0.0 as nat,
                ),
            forall|m: int|
                0 <= m < k ==> point_log((#[trigger] shares@[m]).2) == poly_eval(
                    pc.logs(),
                    shares@[m].0.0 as nat,
                ),
            pc.logs() == scalars@.map_values(|s: k256::Scalar| scalar_val(s)),
        decreases vote_ids@.len() - k,
    {
        let x = vote_ids[k].to_identifier();
        let share = eval_scalar_poly(&scalars, &x);
        proof {
            assert(scalars@.map_values(|s: k256::Scalar| scalar_val(s)) == pc.logs());
        }
        let commit = el_mul_base(&share);
        shares.push((vote_ids[k], share, commit));
        k = k + 1;
    }

    (pc, shares)
}

/// Evaluates the polynomial with the given scalar coefficients at `x`, by
/// the Horner scheme.
fn eval_scalar_poly(scalars: &Vec<k256::Scalar>, x: &k256::Scalar) -> (r: k256::Scalar)
    ensures
        scalar_val(r) == poly_eval(
            scalars@.map_values(|s: k256::Scalar| scalar_val(s)),
            scalar_val(*x),
        ),
{
    let ghost vals = scalars@.map_values(|s: k256::Scalar| scalar_val(s));
    let mut acc = crate::curve::scalar_zero();
    let mut i: usize = scalars.len();
    proof {
        assert(vals.skip(i as int) =~= Seq::<nat>::empty());
    }
    while i > 0
        invariant
            0 <= i <= scalars@.len(),
            vals == scalars@.map_values(|s: k256::Scalar| scalar_val(s)),
            vals.len() == scalars@.len(),
            scalar_val(acc) == poly_eval(vals.skip(i as int), scalar_val(*x)),
        decreases i,
    {
        i = i - 1;
        let scaled = scalar_mul(x, &acc);
        acc = scalar_add(&scalars[i], &scaled);
        proof {
            assert(vals.skip(i as int).drop_first() =~= vals.skip(i as int + 1));
            assert(vals.skip(i as int).first() == vals[i as int]);
        }
    }
    proof {
        assert(vals.skip(0) =~= vals);
    }
    acc
}

/// Evaluates the commitment at each of the given votes' evaluation points.
pub fn evaluate_commitment_points(
    commitment: &PolynomialCommitment,
    points: &Vec<VoteID>,
) -> (r: Vec<k256::ProjectivePoint>)
    ensures
        r@.len() == points@.len(),
        forall|k: int|
            0 <= k < r@.len() ==> point_log(#[trigger] r@[k]) == poly_eval(
                commitment.logs(),
                points@[k].0 as nat,
            ),
{
    let mut out: Vec<k256::ProjectivePoint> = Vec::new();
    let mut i: usize = 0;
    while i < points.len()
        invariant
            0 <= i <= points@.len(),
            out@.len() == i,
            forall|k: int|
                0 <= k < i ==> point_log(#[trigger] out@[k]) == poly_eval(
                    commitment.logs(),
                    points@[k].0 as nat,
                ),
        decreases points@.len() - i,
    {
        let x = points[i].to_identifier();
        out.push(commitment.evaluate(&x));
        i = i + 1;
    }
    out
}

/// The verifiable-secret-sharing predicate: every listed share lies on the
/// committed polynomial, `VSS(v) == share * G`.
pub open spec fn vss_holds(coeffs: Seq<nat>, shares: Seq<(VoteID, k256::Scalar)>) -> bool {
    forall|k: int|
        0 <= k < shares.len() ==> poly_eval(coeffs, (#[trigger] shares[k]).0.0 as nat)
            == scalar_val(shares[k].1)
}

/// Checks the verifiable-secret-sharing predicate for every pair.
pub fn validate_verifiable_secret_share(
    commitment: &PolynomialCommitment,
    shares: &Vec<(VoteID, k256::Scalar)>,
) -> (r: bool)
    ensures
        r <==> vss_holds(commitment.logs(), shares@),
{
    let mut i: usize = 0;
    while i < shares.len()
        invariant
            0 <= i <= shares@.len(),
            forall|k: int|
                0 <= k < i ==> poly_eval(commitment.logs(), (#[trigger] shares@[k]).0.0 as nat)
                    == scalar_val(shares@[k].1),
        decreases shares@.len() - i,
    {
        let x = shares[i].0.to_identifier();
        let expected = commitment.evaluate(&x);
        let actual = el_mul_base(&shares[i].1);
        if !el_eq(&expected, &actual) {
            return false;
        }
        i = i + 1;
    }
    true
}

} // verus!
