//! Points in space with golden-number coordinates, and the few vector
//! operations that distances and orientations need.
use vstd::prelude::*;
use crate::golden::{gadd, gmul, gneg, gsub, lemma_gmul_within, within, Golden, GoldenModel};

verus! {

/// A point `(x, y, z)`.
#[derive(Clone, Copy, Debug, PartialEq, Eq, Structural)]
pub struct Point {
    pub x: Golden,
    pub y: Golden,
    pub z: Golden,
}

pub type PointModel = (GoldenModel, GoldenModel, GoldenModel);

impl View for Point {
    type V = PointModel;

    open spec fn view(&self) -> PointModel {
        (self.x@, self.y@, self.z@)
    }
}

/// The bound on coordinates under which distances and orientations are
/// computed without overflow.
pub const COORD_BOUND: i64 = 1024;

/// Every coefficient of every coordinate lies within `[-k, k]`.
pub open spec fn pwithin(p: PointModel, k: int) -> bool {
    within(p.0, k) && within(p.1, k) && within(p.2, k)
}

pub open spec fn psub(p: PointModel, q: PointModel) -> PointModel {
    (gsub(p.0, q.0), gsub(p.1, q.1), gsub(p.2, q.2))
}

pub open spec fn dot(p: PointModel, q: PointModel) -> GoldenModel {
    gadd(gadd(gmul(p.0, q.0), gmul(p.1, q.1)), gmul(p.2, q.2))
}

pub open spec fn cross(p: PointModel, q: PointModel) -> PointModel {
    (
        gsub(gmul(p.1, q.2), gmul(p.2, q.1)),
        gsub(gmul(p.2, q.0), gmul(p.0, q.2)),
        gsub(gmul(p.0, q.1), gmul(p.1, q.0)),
    )
}

/// The squared length of `p`.
pub open spec fn sq_norm(p: PointModel) -> GoldenModel {
    dot(p, p)
}

/// The squared distance between `p` and `q`.
pub open spec fn sq_dist(p: PointModel, q: PointModel) -> GoldenModel {
    sq_norm(psub(p, q))
}

/// How the triangle `(a, b, c)` turns as seen from the centre: the normal
/// `(b - a) × (c - a)` dotted with `a`. It is positive exactly when the
/// triangle runs counter-clockwise seen from outside.
pub open spec fn orientation(a: PointModel, b: PointModel, c: PointModel) -> GoldenModel {
    dot(cross(psub(b, a), psub(c, a)), a)
}

proof fn lemma_gmul_neg_left(x: GoldenModel, y: GoldenModel)
    ensures
        gmul(gneg(x), y) == gneg(gmul(x, y)),
{
    assert((-x.0) * y.0 + (-x.1) * y.1 == -(x.0 * y.0 + x.1 * y.1)) by (nonlinear_arith);
    assert((-x.0) * y.1 + (-x.1) * y.0 + (-x.1) * y.1 == -(x.0 * y.1 + x.1 * y.0 + x.1 * y.1))
        by (nonlinear_arith);
}

proof fn lemma_gmul_commutative(x: GoldenModel, y: GoldenModel)
    ensures
        gmul(x, y) == gmul(y, x),
{
    assert(x.0 * y.0 + x.1 * y.1 == y.0 * x.0 + y.1 * x.1) by (nonlinear_arith);
    assert(x.0 * y.1 + x.1 * y.0 + x.1 * y.1 == y.0 * x.1 + y.1 * x.0 + y.1 * x.1)
        by (nonlinear_arith);
}

/// Swapping the last two corners of a triangle reverses its orientation.
pub proof fn lemma_orientation_swap(a: PointModel, b: PointModel, c: PointModel)
    ensures
        orientation(a, c, b) == gneg(orientation(a, b, c)),
{
    let u = psub(b, a);
    let v = psub(c, a);
    lemma_gmul_commutative(u.1, v.2);
    lemma_gmul_commutative(u.2, v.1);
    lemma_gmul_commutative(u.2, v.0);
    lemma_gmul_commutative(u.0, v.2);
    lemma_gmul_commutative(u.0, v.1);
    lemma_gmul_commutative(u.1, v.0);
    let n = cross(u, v);
    assert(cross(v, u) == (gneg(n.0), gneg(n.1), gneg(n.2)));
    lemma_gmul_neg_left(n.0, a.0);
    lemma_gmul_neg_left(n.1, a.1);
    lemma_gmul_neg_left(n.2, a.2);
}

/// The distance from `p` to `q` is the distance from `q` to `p`.
pub proof fn lemma_sq_dist_symmetric(p: PointModel, q: PointModel)
    ensures
        sq_dist(p, q) == sq_dist(q, p),
{
    let d = psub(p, q);
    assert(psub(q, p) == (gneg(d.0), gneg(d.1), gneg(d.2)));
    lemma_gmul_neg_both(d.0);
    lemma_gmul_neg_both(d.1);
    lemma_gmul_neg_both(d.2);
}

proof fn lemma_gmul_neg_both(x: GoldenModel)
    ensures
        gmul(gneg(x), gneg(x)) == gmul(x, x),
{
    lemma_gmul_neg_left(x, gneg(x));
    lemma_gmul_commutative(x, gneg(x));
    lemma_gmul_neg_left(x, x);
    assert(gneg(gneg(gmul(x, x))) == gmul(x, x));
}

proof fn lemma_dot_within(p: PointModel, q: PointModel, kp: int, kq: int)
    requires
        pwithin(p, kp),
        pwithin(q, kq),
    ensures
        within(dot(p, q), 9 * kp * kq),
{
    lemma_gmul_within(p.0, q.0, kp, kq);
    lemma_gmul_within(p.1, q.1, kp, kq);
    lemma_gmul_within(p.2, q.2, kp, kq);
    assert(9 * kp * kq == 3 * (3 * kp * kq)) by (nonlinear_arith);
}

proof fn lemma_cross_within(p: PointModel, q: PointModel, kp: int, kq: int)
    requires
        pwithin(p, kp),
        pwithin(q, kq),
    ensures
        pwithin(cross(p, q), 6 * kp * kq),
{
    lemma_gmul_within(p.1, q.2, kp, kq);
    lemma_gmul_within(p.2, q.1, kp, kq);
    lemma_gmul_within(p.2, q.0, kp, kq);
    lemma_gmul_within(p.0, q.2, kp, kq);
    lemma_gmul_within(p.0, q.1, kp, kq);
    lemma_gmul_within(p.1, q.0, kp, kq);
    assert(6 * kp * kq == 2 * (3 * kp * kq)) by (nonlinear_arith);
}

impl Point {
    pub fn new(x: Golden, y: Golden, z: Golden) -> (r: Point)
        ensures
            r@ == (x@, y@, z@),
    {
        Point { x, y, z }
    }

    pub fn sub(self, o: Point) -> (r: Point)
        requires
            pwithin(self@, 0x1000_0000_0000_0000),
            pwithin(o@, 0x1000_0000_0000_0000),
        ensures
            r@ == psub(self@, o@),
    {
        Point { x: self.x.sub(o.x), y: self.y.sub(o.y), z: self.z.sub(o.z) }
    }

    pub fn dot(self, o: Point) -> (r: Golden)
        requires
            pwithin(self@, 0x200_0000),
            pwithin(o@, 0x200_0000),
        ensures
            r@ == dot(self@, o@),
    {
        proof {
            lemma_gmul_within(self@.0, o@.0, 0x200_0000, 0x200_0000);
            lemma_gmul_within(self@.1, o@.1, 0x200_0000, 0x200_0000);
            lemma_gmul_within(self@.2, o@.2, 0x200_0000, 0x200_0000);
        }
        self.x.mul(o.x).add(self.y.mul(o.y)).add(self.z.mul(o.z))
    }

    pub fn cross(self, o: Point) -> (r: Point)
        requires
            pwithin(self@, 0x200_0000),
            pwithin(o@, 0x200_0000),
        ensures
            r@ == cross(self@, o@),
    {
        proof {
            lemma_cross_within(self@, o@, 0x200_0000, 0x200_0000);
            lemma_gmul_within(self@.1, o@.2, 0x200_0000, 0x200_0000);
            lemma_gmul_within(self@.2, o@.1, 0x200_0000, 0x200_0000);
            lemma_gmul_within(self@.2, o@.0, 0x200_0000, 0x200_0000);
            lemma_gmul_within(self@.0, o@.2, 0x200_0000, 0x200_0000);
            lemma_gmul_within(self@.0, o@.1, 0x200_0000, 0x200_0000);
            lemma_gmul_within(self@.1, o@.0, 0x200_0000, 0x200_0000);
        }
        Point {
            x: self.y.mul(o.z).sub(self.z.mul(o.y)),
            y: self.z.mul(o.x).sub(self.x.mul(o.z)),
            z: self.x.mul(o.y).sub(self.y.mul(o.x)),
        }
    }
}

/// The squared distance between two points.
pub fn squared_distance(p: Point, q: Point) -> (r: Golden)
    requires
        pwithin(p@, COORD_BOUND as int),
        pwithin(q@, COORD_BOUND as int),
    ensures
        r@ == sq_dist(p@, q@),
        within(r@, 0x1000_0000),
{
    let d = p.sub(q);
    proof {
        lemma_dot_within(d@, d@, 2 * COORD_BOUND, 2 * COORD_BOUND);
        assert(9 * (2 * COORD_BOUND) * (2 * COORD_BOUND) <= 0x1000_0000) by (nonlinear_arith);
    }
    d.dot(d)
}

/// The orientation of the triangle `(a, b, c)` as seen from the centre.
pub fn orientation_of(a: Point, b: Point, c: Point) -> (r: Golden)
    requires
        pwithin(a@, COORD_BOUND as int),
        pwithin(b@, COORD_BOUND as int),
        pwithin(c@, COORD_BOUND as int),
    ensures
        r@ == orientation(a@, b@, c@),
        within(r@, 0x100_0000_0000),
{
    let ab = b.sub(a);
    let ac = c.sub(a);
    proof {
        lemma_cross_within(ab@, ac@, 2 * COORD_BOUND, 2 * COORD_BOUND);
    }
    let n = ab.cross(ac);
    proof {
        lemma_dot_within(n@, a@, 6 * (2 * COORD_BOUND) * (2 * COORD_BOUND), COORD_BOUND as int);
    }
    n.dot(a)
}

} // verus!
