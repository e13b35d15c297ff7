//! Exact arithmetic in the ring of integers extended by the golden ratio.
//!
//! A value `a + b·φ` is held as the pair `(a, b)`. Since `φ² = φ + 1` the ring
//! is closed under multiplication, and since `φ` is irrational the pair is
//! unique, so equality of values is equality of pairs.
use vstd::prelude::*;

verus! {

/// The number `a + b·φ`.
#[derive(Clone, Copy, Debug, PartialEq, Eq, Structural)]
pub struct Golden {
    pub a: i64,
    pub b: i64,
}

/// The mathematical value of a golden number, as its two coefficients.
pub type GoldenModel = (int, int);

impl View for Golden {
    type V = GoldenModel;

    open spec fn view(&self) -> GoldenModel {
        (self.a as int, self.b as int)
    }
}

pub open spec fn gadd(x: GoldenModel, y: GoldenModel) -> GoldenModel {
    (x.0 + y.0, x.1 + y.1)
}

pub open spec fn gsub(x: GoldenModel, y: GoldenModel) -> GoldenModel {
    (x.0 - y.0, x.1 - y.1)
}

pub open spec fn gneg(x: GoldenModel) -> GoldenModel {
    (-x.0, -x.1)
}

/// `(a + bφ)(c + dφ) = ac + bd + (ad + bc + bd)φ`, using `φ² = φ + 1`.
pub open spec fn gmul(x: GoldenModel, y: GoldenModel) -> GoldenModel {
    (x.0 * y.0 + x.1 * y.1, x.0 * y.1 + x.1 * y.0 + x.1 * y.1)
}

/// `a + bφ > 0`.
///
/// Writing `φ = (1 + √5) / 2`, the value is `(p + q√5) / 2` with `p = 2a + b`
/// and `q = b`; its sign follows from the signs of `p` and `q` and, when they
/// differ, from comparing `p²` with `5q²`.
pub open spec fn gpos(x: GoldenModel) -> bool {
    let p = 2 * x.0 + x.1;
    let q = x.1;
    if q >= 0 {
        if p >= 0 {
            p > 0 || q > 0
        } else {
            5 * (q * q) > p * p
        }
    } else {
        p > 0 && p * p > 5 * (q * q)
    }
}

/// `x ≤ y`.
pub open spec fn gle(x: GoldenModel, y: GoldenModel) -> bool {
    x == y || gpos(gsub(y, x))
}

/// Both coefficients lie within `[-k, k]`.
pub open spec fn within(x: GoldenModel, k: int) -> bool {
    -k <= x.0 <= k && -k <= x.1 <= k
}

/// A number and its negation are never both positive.
pub proof fn lemma_gpos_antisymmetric(x: GoldenModel)
    ensures
        !(gpos(x) && gpos(gneg(x))),
{
    let p = 2 * x.0 + x.1;
    let q = x.1;
    assert((-p) * (-p) == p * p) by (nonlinear_arith);
    assert(5 * ((-q) * (-q)) == 5 * (q * q)) by (nonlinear_arith);
}

/// `≤` is antisymmetric: values that are each at most the other are equal.
pub proof fn lemma_gle_antisymmetric(x: GoldenModel, y: GoldenModel)
    requires
        gle(x, y),
        gle(y, x),
    ensures
        x == y,
{
    if x != y {
        lemma_gpos_antisymmetric(gsub(y, x));
        assert(gsub(x, y) == gneg(gsub(y, x)));
    }
}

pub(crate) proof fn lemma_gmul_within(x: GoldenModel, y: GoldenModel, kx: int, ky: int)
    requires
        within(x, kx),
        within(y, ky),
    ensures
        within(gmul(x, y), 3 * kx * ky),
{
    lemma_product_within(x.0, y.0, kx, ky);
    lemma_product_within(x.0, y.1, kx, ky);
    lemma_product_within(x.1, y.0, kx, ky);
    lemma_product_within(x.1, y.1, kx, ky);
    assert(3 * kx * ky == 3 * (kx * ky)) by (nonlinear_arith);
}

proof fn lemma_product_within(u: int, v: int, ku: int, kv: int)
    requires
        -ku <= u <= ku,
        -kv <= v <= kv,
    ensures
        -(ku * kv) <= u * v <= ku * kv,
        0 <= ku * kv,
{
    assert(-(ku * kv) <= u * v <= ku * kv && 0 <= ku * kv) by (nonlinear_arith)
        requires
            -ku <= u <= ku,
            -kv <= v <= kv,
    ;
}

impl Golden {
    /// The number `a + b·φ`.
    pub fn new(a: i64, b: i64) -> (r: Golden)
        ensures
            r@ == (a as int, b as int),
    {
        Golden { a, b }
    }

    pub fn add(self, o: Golden) -> (r: Golden)
        requires
            within(self@, 0x2000_0000_0000_0000),
            within(o@, 0x2000_0000_0000_0000),
        ensures
            r@ == gadd(self@, o@),
    {
        Golden { a: self.a + o.a, b: self.b + o.b }
    }

    pub fn sub(self, o: Golden) -> (r: Golden)
        requires
            within(self@, 0x2000_0000_0000_0000),
            within(o@, 0x2000_0000_0000_0000),
        ensures
            r@ == gsub(self@, o@),
    {
        Golden { a: self.a - o.a, b: self.b - o.b }
    }

    pub fn mul(self, o: Golden) -> (r: Golden)
        requires
            within(self@, 0x4000_0000),
            within(o@, 0x4000_0000),
        ensures
            r@ == gmul(self@, o@),
    {
        proof {
            lemma_gmul_within(self@, o@, 0x4000_0000, 0x4000_0000);
            let (a, b) = self@;
            let (c, d) = o@;
            assert(-0x1000_0000_0000_0000 <= a * c <= 0x1000_0000_0000_0000) by (nonlinear_arith)
                requires
                    -0x4000_0000 <= a <= 0x4000_0000,
                    -0x4000_0000 <= c <= 0x4000_0000,
            ;
            assert(-0x1000_0000_0000_0000 <= a * d <= 0x1000_0000_0000_0000) by (nonlinear_arith)
                requires
                    -0x4000_0000 <= a <= 0x4000_0000,
                    -0x4000_0000 <= d <= 0x4000_0000,
            ;
            assert(-0x1000_0000_0000_0000 <= b * c <= 0x1000_0000_0000_0000) by (nonlinear_arith)
                requires
                    -0x4000_0000 <= b <= 0x4000_0000,
                    -0x4000_0000 <= c <= 0x4000_0000,
            ;
            assert(-0x1000_0000_0000_0000 <= b * d <= 0x1000_0000_0000_0000) by (nonlinear_arith)
                requires
                    -0x4000_0000 <= b <= 0x4000_0000,
                    -0x4000_0000 <= d <= 0x4000_0000,
            ;
        }
        let bd = self.b * o.b;
        Golden { a: self.a * o.a + bd, b: self.a * o.b + self.b * o.a + bd }
    }

    /// Whether `self ≤ o`.
    pub fn le(self, o: Golden) -> (r: bool)
        requires
            within(self@, 0x80_0000_0000),
            within(o@, 0x80_0000_0000),
        ensures
            r == gle(self@, o@),
    {
        self == o || o.sub(self).is_positive()
    }

    /// The number with the opposite sign.
    pub fn neg(self) -> (r: Golden)
        requires
            within(self@, 0x2000_0000_0000_0000),
        ensures
            r@ == gneg(self@),
    {
        Golden { a: -self.a, b: -self.b }
    }

    /// Whether the number is strictly positive.
    pub fn is_positive(self) -> (r: bool)
        requires
            within(self@, 0x100_0000_0000),
        ensures
            r == gpos(self@),
    {
        let p: i128 = 2 * (self.a as i128) + self.b as i128;
        let q: i128 = self.b as i128;
        proof {
            assert(p * p <= 0x10_0000_0000_0000_0000_0000) by (nonlinear_arith)
                requires
                    -0x300_0000_0000 <= p <= 0x300_0000_0000,
            ;
            assert(0 <= p * p) by (nonlinear_arith);
            assert(0 <= q * q <= 0x1_0000_0000_0000_0000_0000) by (nonlinear_arith)
                requires
                    -0x100_0000_0000 <= q <= 0x100_0000_0000,
            ;
        }
        if q >= 0 {
            if p >= 0 {
                p > 0 || q > 0
            } else {
                5 * (q * q) > p * p
            }
        } else {
            p > 0 && p * p > 5 * (q * q)
        }
    }
}

} // verus!
