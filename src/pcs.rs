//! The KZG polynomial commitment scheme of the `kzg-commitment` crate, as this library uses it:
//! interpolation, commitment, opening, verification, and the map from a commitment to a scalar.
//! Each call stands behind one trusted wrapper; what a call returns is named by a spec function.

use ark_bls12_381::{Fr, G1Affine};
use ark_ff::{BigInt, PrimeField};
use ark_poly::univariate::DensePolynomial;
use ark_poly::DenseUVPolynomial;
use ark_serialize::{CanonicalDeserialize, CanonicalSerialize};
use kzg_commitment::{KZGCommitment, ProofError};
use num_bigint::BigUint;
use vstd::prelude::*;

use crate::field::{
    distinct_positions, index_positions, lagrange_sums_ok, point_values, poly_eval, positions_of, scalar_values,
    values_of, Scalar,
};

verus! {

/// The commitment scheme's trusted setup, opaque to proofs.
#[verifier::external_type_specification]
#[verifier::external_body]
pub struct ExKZGCommitment(KZGCommitment);

/// The error of `KZGCommitment::generate_proof`, opaque to proofs.
#[verifier::external_type_specification]
#[verifier::external_body]
pub struct ExProofError(ProofError);

/// The coefficients, constant term first, of the polynomial that `vector_to_polynomial`
/// interpolates through the points `(i, values[i])`.
pub uninterp spec fn interpolation_of(values: Seq<int>) -> Seq<int>;

/// The commitment that `commit_polynomial` makes to the polynomial with these coefficients.
pub uninterp spec fn commitment_of(coeffs: Seq<int>) -> Seq<u8>;

/// The opening proof that `generate_proof` makes for the polynomial with these coefficients
/// at these points.
pub uninterp spec fn opening_of(coeffs: Seq<int>, points: Seq<(int, int)>) -> Seq<u8>;

/// Whether `verify_proof` accepts `proof` as an opening of `commitment` at these points.
pub uninterp spec fn kzg_accepts(commitment: Seq<u8>, points: Seq<(int, int)>, proof: Seq<u8>) -> bool;

/// Whether the bytes are the uncompressed encoding of a point of G1, as ark-serialize writes it.
pub uninterp spec fn is_point_encoding(b: Seq<u8>) -> bool;

/// The scalar that a commitment is mapped to when it becomes a value of its parent node.
pub uninterp spec fn field_of_commitment(c: Seq<u8>) -> int;

/// A point of the group G1 of BLS12-381 in its uncompressed encoding: a commitment to a
/// polynomial, or an opening proof (itself the commitment to a quotient). Only this library
/// makes one, from a point of the group, so the bytes always decode: that is its invariant.
#[derive(Debug)]
pub struct Commitment {
    pub(crate) bytes: Vec<u8>,
}

impl View for Commitment {
    type V = Seq<u8>;

    open(crate) spec fn view(&self) -> Seq<u8> {
        self.bytes@
    }
}

impl Clone for Commitment {
    fn clone(&self) -> Self {
        self.duplicate()
    }
}

impl Commitment {
    /// The bytes encode a point of the group.
    #[verifier::type_invariant]
    pub(crate) open spec fn decodes(self) -> bool {
        is_point_encoding(self.bytes@)
    }

    /// A copy of this commitment.
    pub fn duplicate(&self) -> (r: Commitment)
        ensures
            r@ == self@,
    {
        proof {
            use_type_invariant(self);
        }
        Commitment { bytes: self.bytes.clone() }
    }

    /// Whether the two encodings are the same point.
    pub fn same_as(&self, other: &Commitment) -> (r: bool)
        ensures
            r == (self@ == other@),
    {
        if self.bytes.len() != other.bytes.len() {
            return false;
        }
        let mut i: usize = 0;
        while i < self.bytes.len()
            invariant
                self.bytes.len() == other.bytes.len(),
                i <= self.bytes.len(),
                forall|j: int| 0 <= j < i ==> self.bytes@[j] == other.bytes@[j],
            decreases self.bytes.len() - i,
        {
            if self.bytes[i] != other.bytes[i] {
                return false;
            }
            i += 1;
        }
        assert(self.bytes@ =~= other.bytes@);
        true
    }
}

/// A trusted setup of the commitment scheme, with the number of powers it holds.
pub struct Setup {
    pub(crate) kzg: KZGCommitment,
    pub(crate) degree: usize,
}

/// Relies on `KZGCommitment::new`: a setup of `degree` powers of a secret that ark-std's
/// fixed-seed `test_rng` draws, so that all setups agree on the powers they share.
#[verifier::external_body]
pub(crate) fn new_setup(degree: usize) -> (r: Setup)
    ensures
        r.degree == degree,
{
    Setup { kzg: KZGCommitment::new(degree), degree }
}

/// Relies on `KZGCommitment::vector_to_polynomial`: Lagrange interpolation through the points
/// `(i, values[i])`, which passes through them and has at most one coefficient per point.
/// Positions are cast to `u32`, so the length stays within that range; ark-poly's `+=` asserts
/// on the leading coefficient of each partial sum, hence the condition on the sums.
#[verifier::external_body]
pub(crate) fn interpolate(values: &Vec<Scalar>) -> (r: Vec<Scalar>)
    requires
        values.len() <= u32::MAX,
        lagrange_sums_ok(index_positions(values.len() as nat), scalar_values(values@), false),
    ensures
        scalar_values(r@) == interpolation_of(scalar_values(values@)),
        r.len() <= values.len(),
        forall|i: int| 0 <= i < values.len() ==> poly_eval(scalar_values(r@), i) == values@[i]@,
{
    let ys: Vec<Fr> = values.iter().map(|v| Fr::from(BigInt(v.limbs()))).collect();
    let poly = KZGCommitment::vector_to_polynomial(&ys);
    poly.coeffs.iter().map(|c| Scalar::from_canonical_limbs(c.into_bigint().0)).collect()
}

/// Relies on `KZGCommitment::commit_polynomial`, which reads one power of the setup per
/// coefficient, and on ark-serialize, whose encoding of a point decodes again.
#[verifier::external_body]
pub(crate) fn commit(setup: &Setup, coeffs: &Vec<Scalar>) -> (r: Commitment)
    requires
        coeffs.len() <= setup.degree,
    ensures
        r@ == commitment_of(scalar_values(coeffs@)),
        is_point_encoding(r@),
{
    let cs: Vec<Fr> = coeffs.iter().map(|v| Fr::from(BigInt(v.limbs()))).collect();
    let point = setup.kzg.commit_polynomial(&DensePolynomial::from_coefficients_vec(cs));
    let mut bytes = Vec::new();
    point.serialize_uncompressed(&mut bytes).unwrap();
    Commitment { bytes }
}

/// Relies on `KZGCommitment::generate_proof`: it divides the polynomial less the interpolation
/// of the points by the vanishing polynomial of their positions, fails when the remainder is
/// not zero (that is, when the polynomial misses one of the points), and otherwise commits to
/// the quotient. Interpolating through two points at one position would divide by zero, and
/// ark-poly asserts on the leading coefficient of the partial sums of the interpolation and of
/// the full sum, which the subtraction reads. The quotient is what the pairing check of
/// `verify_proof` accepts against the commitment to the polynomial, under the shared secret.
#[verifier::external_body]
pub(crate) fn open(setup: &Setup, coeffs: &Vec<Scalar>, points: &Vec<(Scalar, Scalar)>) -> (r:
    Result<Commitment, ProofError>)
    requires
        coeffs.len() <= setup.degree,
        distinct_positions(point_values(points@)),
        lagrange_sums_ok(positions_of(point_values(points@)), values_of(point_values(points@)), true),
    ensures
        r is Ok <==> forall|t: int|
            0 <= t < points.len() ==> poly_eval(scalar_values(coeffs@), points@[t].0@)
                == points@[t].1@,
        r matches Ok(c) ==> c@ == opening_of(scalar_values(coeffs@), point_values(points@)),
        r matches Ok(c) ==> is_point_encoding(c@),
        r matches Ok(c) ==> kzg_accepts(
            commitment_of(scalar_values(coeffs@)),
            point_values(points@),
            c@,
        ),
{
    let cs: Vec<Fr> = coeffs.iter().map(|v| Fr::from(BigInt(v.limbs()))).collect();
    let pts: Vec<(Fr, Fr)> =
        points.iter().map(|(x, y)| (Fr::from(BigInt(x.limbs())), Fr::from(BigInt(y.limbs())))).collect();
    let proof = setup.kzg.generate_proof(&DensePolynomial::from_coefficients_vec(cs), &pts)?;
    let mut bytes = Vec::new();
    proof.serialize_uncompressed(&mut bytes).unwrap();
    Ok(Commitment { bytes })
}

/// Relies on ark-serialize to decode both points, and on `KZGCommitment::verify_proof`: the pairing check of an opening proof against a
/// commitment at the given points. It reads one power of the setup more than there are
/// points, and interpolates through the points, so positions must differ and the partial sums
/// must keep the leading coefficient that ark-poly asserts on.
#[verifier::external_body]
pub(crate) fn check_opening(
    setup: &Setup,
    commitment: &Commitment,
    points: &Vec<(Scalar, Scalar)>,
    proof: &Commitment,
) -> (r: bool)
    requires
        is_point_encoding(commitment@),
        is_point_encoding(proof@),
        points.len() < setup.degree,
        distinct_positions(point_values(points@)),
        lagrange_sums_ok(positions_of(point_values(points@)), values_of(point_values(points@)), false),
    ensures
        r == kzg_accepts(commitment@, point_values(points@), proof@),
{
    let c = G1Affine::deserialize_uncompressed_unchecked(&commitment.bytes[..]).unwrap();
    let p = G1Affine::deserialize_uncompressed_unchecked(&proof.bytes[..]).unwrap();
    let pts: Vec<(Fr, Fr)> =
        points.iter().map(|(x, y)| (Fr::from(BigInt(x.limbs())), Fr::from(BigInt(y.limbs())))).collect();
    setup.kzg.verify_proof(&c, &pts, &p)
}

/// Relies on ark-ff's arithmetic: the sum of the point's affine coordinates in the base field,
/// as a little-endian integer (through num-bigint), reduced into the scalar field by
/// `Fr::from_le_bytes_mod_order`.
#[verifier::external_body]
pub(crate) fn commitment_to_field(c: &Commitment) -> (r: Scalar)
    requires
        is_point_encoding(c@),
    ensures
        r@ == field_of_commitment(c@),
{
    let p = G1Affine::deserialize_uncompressed_unchecked(&c.bytes[..]).unwrap();
    let sum: BigUint = (p.x + p.y).into_bigint().into();
    Scalar::from_canonical_limbs(Fr::from_le_bytes_mod_order(&sum.to_bytes_le()).into_bigint().0)
}

} // verus!
