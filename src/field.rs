//! Elements of the scalar field of BLS12-381, held as four little-endian 64-bit limbs of
//! their canonical representative, and the polynomial evaluation that the commitments bind.

use ark_bls12_381::Fr;
use ark_ff::{BigInt, Field, PrimeField};
use vstd::prelude::*;

verus! {

/// The order of the scalar field of BLS12-381.
pub open spec fn field_modulus() -> int {
    0x73eda753299d7d483339d80809a1d80553bda402fffe5bfeffffffff00000001int
}

/// The base of one limb.
pub open spec fn limb_base() -> int {
    0x1_0000_0000_0000_0000int
}

/// The integer that four little-endian limbs stand for.
pub open spec fn limbs_value(l0: u64, l1: u64, l2: u64, l3: u64) -> int {
    l0 + limb_base() * (l1 + limb_base() * (l2 + limb_base() * l3))
}

/// Value of the polynomial with coefficients `coeffs` (constant term first) at `x`, in the field.
pub open spec fn poly_eval(coeffs: Seq<int>, x: int) -> int
    decreases coeffs.len(),
{
    if coeffs.len() == 0 {
        0
    } else {
        (coeffs[0] + x * poly_eval(coeffs.drop_first(), x)) % field_modulus()
    }
}

/// An element of the scalar field, by its canonical representative in `[0, field_modulus())`.
#[derive(Clone, Copy, Debug, PartialEq, Eq, Structural)]
pub struct Scalar {
    pub(crate) l0: u64,
    pub(crate) l1: u64,
    pub(crate) l2: u64,
    pub(crate) l3: u64,
}

impl View for Scalar {
    type V = int;

    open(crate) spec fn view(&self) -> int {
        limbs_value(self.l0, self.l1, self.l2, self.l3)
    }
}

/// Sum modulo the field order.
pub open spec fn fadd(a: int, b: int) -> int {
    (a + b) % field_modulus()
}

/// Difference modulo the field order.
pub open spec fn fsub(a: int, b: int) -> int {
    (a - b) % field_modulus()
}

/// Product modulo the field order.
pub open spec fn fmul(a: int, b: int) -> int {
    (a * b) % field_modulus()
}

/// The inverse modulo the (prime) field order, for a value that is not a multiple of it.
pub open spec fn finv(a: int) -> int {
    choose|r: int| 0 <= r < field_modulus() && #[trigger] fmul(a, r) == 1
}

/// No two points share a position.
pub open spec fn distinct_positions(points: Seq<(int, int)>) -> bool {
    forall|s: int, t: int|
        0 <= s < points.len() && 0 <= t < points.len() && s != t ==> points[s].0 != points[t].0
}

/// The positions `0, 1, .., n - 1`.
pub open spec fn index_positions(n: nat) -> Seq<int> {
    Seq::new(n, |i: int| i)
}

/// The positions of a sequence of points.
pub open spec fn positions_of(pts: Seq<(int, int)>) -> Seq<int> {
    pts.map_values(|p: (int, int)| p.0)
}

/// The values of a sequence of points.
pub open spec fn values_of(pts: Seq<(int, int)>) -> Seq<int> {
    pts.map_values(|p: (int, int)| p.1)
}

/// The leading factor of the Lagrange term of point `i`: the product, over the points `j < m`
/// other than `i`, of the inverse of `xs[i] - xs[j]`.
pub open spec fn basis_top(xs: Seq<int>, i: int, m: int) -> int
    decreases m,
{
    if m <= 0 {
        1
    } else if m - 1 == i {
        basis_top(xs, i, m - 1)
    } else {
        fmul(basis_top(xs, i, m - 1), finv(fsub(xs[i], xs[m - 1])))
    }
}

/// The coefficient of degree `|xs| - 1` in the sum of the Lagrange terms of the first `k` points.
pub open spec fn top_of_prefix(xs: Seq<int>, ys: Seq<int>, k: int) -> int
    decreases k,
{
    if k <= 0 {
        0
    } else {
        fadd(top_of_prefix(xs, ys, k - 1), fmul(ys[k - 1], basis_top(xs, k - 1, xs.len() as int)))
    }
}

/// The first `k` values are zero in the field.
pub open spec fn zero_prefix(ys: Seq<int>, k: int) -> bool {
    forall|i: int| 0 <= i < k ==> #[trigger] ys[i] % field_modulus() == 0
}

/// Lagrange interpolation through the points `(xs[i], ys[i])`, as `kzg-commitment` performs it,
/// adds the terms in order with ark-poly's `+=`, which asserts that its left side keeps its
/// leading coefficient. Every non-zero term has degree `|xs| - 1`, so this holds when each
/// partial sum that a non-zero term is added to is zero or has a non-zero coefficient of that
/// degree; with `whole`, the same is asked of the full sum (which a later subtraction reads).
pub open spec fn lagrange_sums_ok(xs: Seq<int>, ys: Seq<int>, whole: bool) -> bool {
    &&& forall|k: int|
        1 <= k < ys.len() ==> ys[k] % field_modulus() == 0 || zero_prefix(ys, k)
            || #[trigger] top_of_prefix(xs, ys, k) != 0
    &&& whole ==> (zero_prefix(ys, ys.len() as int) || top_of_prefix(xs, ys, ys.len() as int)
        != 0)
}

/// The views of a sequence of scalars.
pub open spec fn scalar_values(s: Seq<Scalar>) -> Seq<int> {
    s.map_values(|x: Scalar| x@)
}

/// The views of a sequence of points `(x, y)`.
pub open spec fn point_values(s: Seq<(Scalar, Scalar)>) -> Seq<(int, int)> {
    s.map_values(|p: (Scalar, Scalar)| (p.0@, p.1@))
}

proof fn lemma_limb_split(a0: u64, ra: int, b0: u64, rb: int)
    requires
        ra >= 0,
        rb >= 0,
        a0 + limb_base() * ra == b0 + limb_base() * rb,
    ensures
        a0 == b0,
        ra == rb,
{
    let x = a0 + limb_base() * ra;
    vstd::arithmetic::div_mod::lemma_fundamental_div_mod_converse(x, limb_base(), ra, a0 as int);
    vstd::arithmetic::div_mod::lemma_fundamental_div_mod_converse(x, limb_base(), rb, b0 as int);
}

/// Two scalars with the same value have the same limbs.
pub proof fn lemma_value_determines_limbs(a: Scalar, b: Scalar)
    requires
        a@ == b@,
    ensures
        a == b,
{
    let ra2 = a.l2 + limb_base() * a.l3;
    let rb2 = b.l2 + limb_base() * b.l3;
    let ra1 = a.l1 + limb_base() * ra2;
    let rb1 = b.l1 + limb_base() * rb2;
    assert(ra2 >= 0 && rb2 >= 0) by (nonlinear_arith)
        requires ra2 == a.l2 + limb_base() * a.l3, rb2 == b.l2 + limb_base() * b.l3, limb_base() > 0;
    assert(ra1 >= 0 && rb1 >= 0) by (nonlinear_arith)
        requires ra1 == a.l1 + limb_base() * ra2, rb1 == b.l1 + limb_base() * rb2, ra2 >= 0, rb2 >= 0, limb_base() > 0;
    lemma_limb_split(a.l0, ra1, b.l0, rb1);
    lemma_limb_split(a.l1, ra2, b.l1, rb2);
    lemma_limb_split(a.l2, a.l3 as int, b.l2, b.l3 as int);
}

/// Interpolation through one point never fails.
pub proof fn lemma_single_point_sums(x: int, y: int)
    ensures
        lagrange_sums_ok(seq![x], seq![y], true),
{
    let xs = seq![x];
    let ys = seq![y];
    assert(basis_top(xs, 0, 0) == 1);
    assert(basis_top(xs, 0, 1) == 1);
    assert(top_of_prefix(xs, ys, 0) == 0);
    assert(top_of_prefix(xs, ys, 1) == fadd(0, fmul(y, 1)));
    let p = field_modulus();
    vstd::arithmetic::div_mod::lemma_mod_bound(y, p);
    vstd::arithmetic::div_mod::lemma_small_mod((y % p) as nat, p as nat);
    if y % p == 0 {
        assert(zero_prefix(ys, 1));
    }
}

proof fn lemma_distinct_difference(a: int, b: int)
    requires
        0 <= a < field_modulus(),
        0 <= b < field_modulus(),
        a != b,
    ensures
        fsub(a, b) != 0,
{
    let p = field_modulus();
    if (a - b) % p == 0 {
        vstd::arithmetic::div_mod::lemma_fundamental_div_mod(a - b, p);
        let q = (a - b) / p;
        assert(a - b == p * q);
        if q >= 1 {
            assert(p * q >= p) by (nonlinear_arith)
                requires q >= 1, p > 0;
        } else if q <= -1 {
            assert(p * q <= -p) by (nonlinear_arith)
                requires q <= -1, p > 0;
        }
    }
}

/// Relies on ark-ff's addition in `Fr`.
#[verifier::external_body]
pub(crate) fn scalar_add(a: &Scalar, b: &Scalar) -> (r: Scalar)
    ensures
        r@ == fadd(a@, b@),
{
    Scalar::from_canonical_limbs((Fr::from(BigInt(a.limbs())) + Fr::from(BigInt(b.limbs()))).into_bigint().0)
}

/// Relies on ark-ff's subtraction in `Fr`.
#[verifier::external_body]
pub(crate) fn scalar_sub(a: &Scalar, b: &Scalar) -> (r: Scalar)
    ensures
        r@ == fsub(a@, b@),
{
    Scalar::from_canonical_limbs((Fr::from(BigInt(a.limbs())) - Fr::from(BigInt(b.limbs()))).into_bigint().0)
}

/// Relies on ark-ff's multiplication in `Fr`.
#[verifier::external_body]
pub(crate) fn scalar_mul(a: &Scalar, b: &Scalar) -> (r: Scalar)
    ensures
        r@ == fmul(a@, b@),
{
    Scalar::from_canonical_limbs((Fr::from(BigInt(a.limbs())) * Fr::from(BigInt(b.limbs()))).into_bigint().0)
}

/// Relies on ark-ff's `Field::inverse` in `Fr`: none for zero, else the inverse.
#[verifier::external_body]
pub(crate) fn scalar_inverse(a: &Scalar) -> (r: Option<Scalar>)
    ensures
        r is None <==> a@ % field_modulus() == 0,
        r matches Some(s) ==> s@ == finv(a@),
{
    Fr::from(BigInt(a.limbs())).inverse().map(|f| Scalar::from_canonical_limbs(f.into_bigint().0))
}

/// Whether kzg-commitment's Lagrange interpolation through `points` keeps, in each partial sum,
/// the leading coefficient that ark-poly asserts on (and, with `whole`, in the full sum).
pub fn lagrange_sums_hold(points: &Vec<(Scalar, Scalar)>, whole: bool) -> (r: bool)
    requires
        distinct_positions(point_values(points@)),
    ensures
        r == lagrange_sums_ok(
            positions_of(point_values(points@)),
            values_of(point_values(points@)),
            whole,
        ),
{
    let ghost xs = positions_of(point_values(points@));
    let ghost ys = values_of(point_values(points@));
    let n = points.len();
    let zero = Scalar::from_u64(0);
    let mut tops: Vec<Scalar> = Vec::new();
    let mut i: usize = 0;
    while i < n
        invariant
            n == points.len(),
            xs == positions_of(point_values(points@)),
            distinct_positions(point_values(points@)),
            i <= n,
            tops.len() == i,
            forall|t: int| 0 <= t < i ==> (#[trigger] tops@[t])@ == basis_top(xs, t, n as int),
        decreases n - i,
    {
        let xi = points[i].0;
        proof {
            use_type_invariant(&xi);
            xi.lemma_nonnegative();
        }
        let mut s = Scalar::from_u64(1);
        let mut m: usize = 0;
        while m < n
            invariant
                n == points.len(),
                xs == positions_of(point_values(points@)),
                distinct_positions(point_values(points@)),
                i < n,
                xi == points@[i as int].0,
                0 <= xi@ < field_modulus(),
                m <= n,
                s@ == basis_top(xs, i as int, m as int),
            decreases n - m,
        {
            if m != i {
                let xm = points[m].0;
                proof {
                    use_type_invariant(&xm);
                    xm.lemma_nonnegative();
                    assert(point_values(points@)[i as int].0 != point_values(points@)[m as int].0);
                    lemma_distinct_difference(xi@, xm@);
                }
                let dif = scalar_sub(&xi, &xm);
                proof {
                    vstd::arithmetic::div_mod::lemma_mod_bound(xi@ - xm@, field_modulus());
                    vstd::arithmetic::div_mod::lemma_small_mod(dif@ as nat, field_modulus() as nat);
                }
                let inv = match scalar_inverse(&dif) {
                    Some(v) => v,
                    None => {
                        return false;
                    },
                };
                s = scalar_mul(&s, &inv);
            }
            m += 1;
        }
        tops.push(s);
        i += 1;
    }
    let mut acc = Scalar::from_u64(0);
    let mut seen = false;
    let mut k: usize = 0;
    while k < n
        invariant
            n == points.len(),
            xs == positions_of(point_values(points@)),
            ys == values_of(point_values(points@)),
            zero@ == 0,
            tops.len() == n,
            forall|t: int| 0 <= t < n ==> (#[trigger] tops@[t])@ == basis_top(xs, t, n as int),
            k <= n,
            acc@ == top_of_prefix(xs, ys, k as int),
            seen == !zero_prefix(ys, k as int),
            forall|k2: int|
                1 <= k2 < k ==> ys[k2] % field_modulus() == 0 || zero_prefix(ys, k2)
                    || #[trigger] top_of_prefix(xs, ys, k2) != 0,
        decreases n - k,
    {
        let y = points[k].1;
        let y_zero = y.is_zero();
        assert(ys[k as int] == y@);
        if k >= 1 && !y_zero && seen && acc.same_value(&zero) {
            return false;
        }
        let term = scalar_mul(&y, &tops[k]);
        acc = scalar_add(&acc, &term);
        proof {
            if !seen && y_zero {
                assert forall|i2: int| 0 <= i2 < k + 1 implies #[trigger] ys[i2] % field_modulus() == 0 by {}
            }
            if !y_zero {
                assert(!zero_prefix(ys, k + 1));
            }
            if seen {
                let w = choose|i2: int| 0 <= i2 < k && !(#[trigger] ys[i2] % field_modulus() == 0);
                assert(!zero_prefix(ys, k + 1));
            }
        }
        seen = seen || !y_zero;
        k += 1;
    }
    if whole && seen && acc.same_value(&zero) {
        return false;
    }
    true
}

impl Scalar {
    /// Every scalar is a canonical representative.
    #[verifier::type_invariant]
    spec fn canonical(self) -> bool {
        self@ < field_modulus()
    }

    /// The value of a scalar is never negative.
    proof fn lemma_nonnegative(self)
        ensures
            0 <= self@,
    {
        assert(0 <= self@) by (nonlinear_arith)
            requires self@ == limbs_value(self.l0, self.l1, self.l2, self.l3), limb_base() > 0;
    }

    /// Whether the value is zero in the field.
    pub fn is_zero(&self) -> (r: bool)
        ensures
            r == (self@ % field_modulus() == 0),
    {
        proof {
            use_type_invariant(self);
            self.lemma_nonnegative();
            vstd::arithmetic::div_mod::lemma_small_mod(self@ as nat, field_modulus() as nat);
        }
        self.same_value(&Scalar::from_u64(0))
    }

    /// The field element `x`.
    pub fn from_u64(x: u64) -> (r: Scalar)
        ensures
            r@ == x,
    {
        Scalar { l0: x, l1: 0, l2: 0, l3: 0 }
    }

    /// The field element `x`, reduced modulo the field order where `x` is negative.
    pub fn from_i64(x: i64) -> (r: Scalar)
        ensures
            r@ == (x as int) % field_modulus(),
    {
        if x >= 0 {
            Scalar { l0: x as u64, l1: 0, l2: 0, l3: 0 }
        } else {
            let m: u64 = if x == i64::MIN { 0x8000_0000_0000_0000u64 } else { (-x) as u64 };
            let r = Scalar {
                l0: 0xffff_ffff_0000_0001u64 - m,
                l1: 0x53bd_a402_fffe_5bfeu64,
                l2: 0x3339_d808_09a1_d805u64,
                l3: 0x73ed_a753_299d_7d48u64,
            };
            assert(r@ == field_modulus() - m);
            assert((x as int) % field_modulus() == field_modulus() - m) by {
                vstd::arithmetic::div_mod::lemma_fundamental_div_mod_converse(
                    x as int, field_modulus(), -1, field_modulus() - m);
            }
            r
        }
    }

    /// The scalar whose canonical limbs, least significant first, are `l`.
    pub(crate) fn from_canonical_limbs(l: [u64; 4]) -> (r: Scalar)
        requires
            limbs_value(l[0], l[1], l[2], l[3]) < field_modulus(),
        ensures
            r@ == limbs_value(l[0], l[1], l[2], l[3]),
    {
        Scalar { l0: l[0], l1: l[1], l2: l[2], l3: l[3] }
    }

    /// The canonical limbs, least significant first.
    pub(crate) fn limbs(&self) -> (r: [u64; 4])
        ensures
            r@ == seq![self.l0, self.l1, self.l2, self.l3],
    {
        [self.l0, self.l1, self.l2, self.l3]
    }

    /// Whether the value is below `bound`.
    pub fn is_below(&self, bound: u64) -> (r: bool)
        ensures
            r == (self@ < bound),
    {
        proof {
            let rest = self.l1 + limb_base() * (self.l2 + limb_base() * self.l3);
            assert(rest >= 0) by (nonlinear_arith)
                requires rest == self.l1 + limb_base() * (self.l2 + limb_base() * self.l3), limb_base() > 0;
            assert(self@ == self.l0 + limb_base() * rest);
            if rest > 0 {
                assert(limb_base() * rest >= limb_base()) by (nonlinear_arith)
                    requires rest >= 1, limb_base() > 0;
            } else {
                assert(self.l1 == 0 && self.l2 == 0 && self.l3 == 0) by (nonlinear_arith)
                    requires rest == 0, rest == self.l1 + limb_base() * (self.l2 + limb_base() * self.l3), limb_base() > 0, self.l1 >= 0, self.l2 >= 0, self.l3 >= 0;
            }
        }
        self.l1 == 0 && self.l2 == 0 && self.l3 == 0 && self.l0 < bound
    }

    /// Whether the two scalars are the same field element.
    pub fn same_value(&self, other: &Scalar) -> (r: bool)
        ensures
            r == (self@ == other@),
    {
        proof {
            if self@ == other@ {
                lemma_value_determines_limbs(*self, *other);
            }
        }
        self.l0 == other.l0 && self.l1 == other.l1 && self.l2 == other.l2 && self.l3 == other.l3
    }
}

} // verus!
