//! The twelve corners of the icosahedron, from three golden rectangles.
//!
//! One rectangle has corners `(±φ, ±1, 0)`; two quarter turns carry it onto
//! the other two coordinate planes, so that the three rectangles are mutually
//! orthogonal. Every corner lies at squared distance `φ² + 1 = φ + 2` from the
//! centre, so the twelve points share one sphere.
use vstd::prelude::*;
use crate::geometry::{pwithin, sq_norm, Point, PointModel};
use crate::golden::{gneg, Golden, GoldenModel};

verus! {

/// The squared radius `φ + 2` shared by all corners.
pub open spec fn seed_sq_radius() -> GoldenModel {
    (2, 1)
}

/// The rectangle `(∓φ, ±1, 0)` in the order in which its corners are listed.
pub open spec fn rectangle() -> Seq<PointModel> {
    let x: GoldenModel = (0, 1);
    let y: GoldenModel = (1, 0);
    let o: GoldenModel = (0, 0);
    seq![(gneg(x), y, o), (gneg(x), gneg(y), o), (x, y, o), (x, gneg(y), o)]
}

/// A quarter turn about the x axis followed by one about the y axis.
pub open spec fn turn_first(p: PointModel) -> PointModel {
    (p.1, gneg(p.2), gneg(p.0))
}

/// A quarter turn about the x axis followed by one about the z axis.
pub open spec fn turn_second(p: PointModel) -> PointModel {
    (p.2, p.0, p.1)
}

/// The twelve corners: the rectangle, then its two turned copies.
pub open spec fn seed_corners() -> Seq<PointModel> {
    let r = rectangle();
    seq![
        r[0], r[1], r[2], r[3],
        turn_first(r[0]), turn_first(r[1]), turn_first(r[2]), turn_first(r[3]),
        turn_second(r[0]), turn_second(r[1]), turn_second(r[2]), turn_second(r[3]),
    ]
}

proof fn lemma_seed_corners_on_sphere()
    ensures
        forall|k: int|
            0 <= k < 12 ==> sq_norm(#[trigger] seed_corners()[k]) == seed_sq_radius() && pwithin(
                seed_corners()[k],
                1,
            ),
{
    let s = seed_corners();
    assert(sq_norm(s[0]) == seed_sq_radius() && pwithin(s[0], 1));
    assert(sq_norm(s[1]) == seed_sq_radius() && pwithin(s[1], 1));
    assert(sq_norm(s[2]) == seed_sq_radius() && pwithin(s[2], 1));
    assert(sq_norm(s[3]) == seed_sq_radius() && pwithin(s[3], 1));
    assert(sq_norm(s[4]) == seed_sq_radius() && pwithin(s[4], 1));
    assert(sq_norm(s[5]) == seed_sq_radius() && pwithin(s[5], 1));
    assert(sq_norm(s[6]) == seed_sq_radius() && pwithin(s[6], 1));
    assert(sq_norm(s[7]) == seed_sq_radius() && pwithin(s[7], 1));
    assert(sq_norm(s[8]) == seed_sq_radius() && pwithin(s[8], 1));
    assert(sq_norm(s[9]) == seed_sq_radius() && pwithin(s[9], 1));
    assert(sq_norm(s[10]) == seed_sq_radius() && pwithin(s[10], 1));
    assert(sq_norm(s[11]) == seed_sq_radius() && pwithin(s[11], 1));
}

fn turned_first(p: Point) -> (r: Point)
    requires
        pwithin(p@, 1),
    ensures
        r@ == turn_first(p@),
{
    Point::new(p.y, Golden::new(-p.z.a, -p.z.b), Golden::new(-p.x.a, -p.x.b))
}

fn turned_second(p: Point) -> (r: Point)
    ensures
        r@ == turn_second(p@),
{
    Point::new(p.z, p.x, p.y)
}

/// The twelve corners of the icosahedron, each at squared distance `φ + 2`
/// from the centre.
pub fn seed_points() -> (r: Vec<Point>)
    ensures
        r@.len() == 12,
        forall|i: int| 0 <= i < 12 ==> #[trigger] r@[i]@ == seed_corners()[i],
        forall|i: int| 0 <= i < 12 ==> sq_norm(#[trigger] r@[i]@) == seed_sq_radius(),
        forall|i: int| 0 <= i < 12 ==> pwithin(#[trigger] r@[i]@, 1),
{
    let x = Golden::new(0, 1);
    let y = Golden::new(1, 0);
    let o = Golden::new(0, 0);
    let nx = Golden::new(0, -1);
    let ny = Golden::new(-1, 0);
    let rect: Vec<Point> = vec![
        Point::new(nx, y, o),
        Point::new(nx, ny, o),
        Point::new(x, y, o),
        Point::new(x, ny, o),
    ];
    let mut r: Vec<Point> = Vec::new();
    let mut i: usize = 0;
    while i < 4
        invariant
            rect@.len() == 4,
            forall|k: int| 0 <= k < 4 ==> #[trigger] rect@[k]@ == rectangle()[k],
            0 <= i <= 4,
            r@.len() == i,
            forall|k: int| 0 <= k < i ==> #[trigger] r@[k]@ == seed_corners()[k],
        decreases 4 - i,
    {
        r.push(rect[i]);
        i = i + 1;
    }
    i = 0;
    while i < 4
        invariant
            rect@.len() == 4,
            forall|k: int| 0 <= k < 4 ==> #[trigger] rect@[k]@ == rectangle()[k],
            0 <= i <= 4,
            r@.len() == 4 + i,
            forall|k: int| 0 <= k < 4 + i ==> #[trigger] r@[k]@ == seed_corners()[k],
        decreases 4 - i,
    {
        r.push(turned_first(rect[i]));
        i = i + 1;
    }
    i = 0;
    while i < 4
        invariant
            rect@.len() == 4,
            forall|k: int| 0 <= k < 4 ==> #[trigger] rect@[k]@ == rectangle()[k],
            0 <= i <= 4,
            r@.len() == 8 + i,
            forall|k: int| 0 <= k < 8 + i ==> #[trigger] r@[k]@ == seed_corners()[k],
        decreases 4 - i,
    {
        r.push(turned_second(rect[i]));
        i = i + 1;
    }
    proof {
        lemma_seed_corners_on_sphere();
        assert forall|k: int| 0 <= k < 12 implies sq_norm(#[trigger] r@[k]@) == seed_sq_radius()
            && pwithin(r@[k]@, 1) by {
            assert(r@[k]@ == seed_corners()[k]);
        }
    }
    r
}

} // verus!
