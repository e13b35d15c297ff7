//! The neighbour graph of a point set: two points are neighbours when their
//! distance is the smallest distance between any two distinct points.
//!
//! The search is brute force over all pairs, which is what a dozen points
//! call for.
use vstd::prelude::*;
use crate::geometry::{pwithin, sq_dist, squared_distance, Point, PointModel, COORD_BOUND};
use crate::golden::{gle, lemma_gle_antisymmetric, Golden, GoldenModel};

verus! {

/// The points' coordinates.
pub open spec fn views(v: Seq<Point>) -> Seq<PointModel> {
    v.map_values(|p: Point| p@)
}

/// Every coordinate is small enough for exact distances.
pub open spec fn bounded(pts: Seq<PointModel>) -> bool {
    forall|i: int| 0 <= i < pts.len() ==> pwithin(#[trigger] pts[i], COORD_BOUND as int)
}

/// `d` is at most the squared distance between any two distinct points.
pub open spec fn is_min_dist(pts: Seq<PointModel>, d: GoldenModel) -> bool {
    forall|k: int, l: int|
        0 <= k < pts.len() && 0 <= l < pts.len() && k != l ==> gle(
            d,
            #[trigger] sq_dist(pts[k], pts[l]),
        )
}

/// Points `i` and `j` are distinct and at the smallest distance that occurs.
pub open spec fn adjacent(pts: Seq<PointModel>, i: int, j: int) -> bool {
    &&& 0 <= i < pts.len()
    &&& 0 <= j < pts.len()
    &&& i != j
    &&& is_min_dist(pts, sq_dist(pts[i], pts[j]))
}

/// Whether `d` is at most the squared distance between any two distinct
/// points.
fn at_most_all(points: &Vec<Point>, d: Golden) -> (r: bool)
    requires
        bounded(views(points@)),
        dist_bounded(d@),
    ensures
        r == is_min_dist(views(points@), d@),
{
    let ghost pts = views(points@);
    let n = points.len();
    let mut k: usize = 0;
    while k < n
        invariant
            n == points@.len(),
            pts == views(points@),
            bounded(pts),
            dist_bounded(d@),
            0 <= k <= n,
            forall|k2: int, l2: int|
                0 <= k2 < k && 0 <= l2 < n && k2 != l2 ==> gle(d@, #[trigger] sq_dist(pts[k2], pts[l2])),
        decreases n - k,
    {
        let mut l: usize = 0;
        while l < n
            invariant
                n == points@.len(),
                pts == views(points@),
                bounded(pts),
                dist_bounded(d@),
                0 <= k < n,
                0 <= l <= n,
                forall|k2: int, l2: int|
                    0 <= k2 < k && 0 <= l2 < n && k2 != l2 ==> gle(d@, #[trigger] sq_dist(pts[k2], pts[l2])),
                forall|l2: int| 0 <= l2 < l && k != l2 ==> gle(d@, #[trigger] sq_dist(pts[k as int], pts[l2])),
            decreases n - l,
        {
            if k != l {
                proof {
                    assert(pts[k as int] == points@[k as int]@);
                    assert(pts[l as int] == points@[l as int]@);
                }
                let e = squared_distance(points[k], points[l]);
                if !d.le(e) {
                    return false;
                }
            }
            l = l + 1;
        }
        k = k + 1;
    }
    true
}

/// Bounds that squared distances of bounded points stay within.
pub open spec fn dist_bounded(d: GoldenModel) -> bool {
    crate::golden::within(d, 0x1000_0000)
}

/// The smallest distance between two distinct points, squared: the edge
/// length of the solid. `None` when no distance is at most all others, as
/// with fewer than two points.
pub fn edge_length(points: &Vec<Point>) -> (r: Option<Golden>)
    requires
        bounded(views(points@)),
    ensures
        r matches Some(m) ==> is_min_dist(views(points@), m@) && exists|i: int, j: int|
            0 <= i < points@.len() && 0 <= j < points@.len() && i != j && m@ == sq_dist(
                views(points@)[i],
                views(points@)[j],
            ),
        r is None ==> forall|i: int, j: int|
            0 <= i < points@.len() && 0 <= j < points@.len() && i != j ==> !is_min_dist(
                views(points@),
                #[trigger] sq_dist(views(points@)[i], views(points@)[j]),
            ),
{
    let ghost pts = views(points@);
    let n = points.len();
    let mut i: usize = 0;
    while i < n
        invariant
            n == points@.len(),
            pts == views(points@),
            bounded(pts),
            0 <= i <= n,
            forall|i2: int, j2: int|
                0 <= i2 < i && 0 <= j2 < n && i2 != j2 ==> !is_min_dist(
                    pts,
                    #[trigger] sq_dist(pts[i2], pts[j2]),
                ),
        decreases n - i,
    {
        let mut j: usize = 0;
        while j < n
            invariant
                n == points@.len(),
                pts == views(points@),
                bounded(pts),
                0 <= i < n,
                0 <= j <= n,
                forall|i2: int, j2: int|
                    0 <= i2 < i && 0 <= j2 < n && i2 != j2 ==> !is_min_dist(
                        pts,
                        #[trigger] sq_dist(pts[i2], pts[j2]),
                    ),
                forall|j2: int|
                    0 <= j2 < j && i != j2 ==> !is_min_dist(
                        pts,
                        #[trigger] sq_dist(pts[i as int], pts[j2]),
                    ),
            decreases n - j,
        {
            if i != j {
                proof {
                    assert(pts[i as int] == points@[i as int]@);
                    assert(pts[j as int] == points@[j as int]@);
                }
                let d = squared_distance(points[i], points[j]);
                if at_most_all(points, d) {
                    return Some(d);
                }
            }
            j = j + 1;
        }
        i = i + 1;
    }
    None
}

/// Strictly increasing indices below `n`, none of them `i`.
pub open spec fn neighbor_list_wf(l: Seq<usize>, n: int, i: int) -> bool {
    &&& forall|a: int, b: int| 0 <= a < b < l.len() ==> l[a] < l[b]
    &&& forall|a: int| 0 <= a < l.len() ==> #[trigger] l[a] < n && l[a] != i
}

/// The neighbour lists of all points: list `i` holds, in increasing order,
/// every `j` that is adjacent to `i`, and nothing else.
pub fn neighbors(points: &Vec<Point>) -> (r: Vec<Vec<usize>>)
    requires
        bounded(views(points@)),
    ensures
        r@.len() == points@.len(),
        forall|i: int| 0 <= i < r@.len() ==> neighbor_list_wf(#[trigger] r@[i]@, r@.len() as int, i),
        forall|i: int, j: int|
            0 <= i < r@.len() && 0 <= j < r@.len() ==> (#[trigger] r@[i]@.contains(j as usize)
                <==> adjacent(views(points@), i, j)),
{
    let ghost pts = views(points@);
    let n = points.len();
    let len = edge_length(points);
    let mut r: Vec<Vec<usize>> = Vec::new();
    let mut i: usize = 0;
    while i < n
        invariant
            n == points@.len(),
            pts == views(points@),
            bounded(pts),
            len matches Some(m) ==> is_min_dist(pts, m@) && exists|i: int, j: int|
                0 <= i < n && 0 <= j < n && i != j && m@ == sq_dist(pts[i], pts[j]),
            len is None ==> forall|i: int, j: int|
                0 <= i < n && 0 <= j < n && i != j ==> !is_min_dist(
                    pts,
                    #[trigger] sq_dist(pts[i], pts[j]),
                ),
            0 <= i <= n,
            r@.len() == i,
            forall|i2: int| 0 <= i2 < i ==> neighbor_list_wf(#[trigger] r@[i2]@, n as int, i2),
            forall|i2: int, j: int|
                0 <= i2 < i && 0 <= j < n ==> (#[trigger] r@[i2]@.contains(j as usize)
                    <==> adjacent(pts, i2, j)),
        decreases n - i,
    {
        let mut row: Vec<usize> = Vec::new();
        let mut j: usize = 0;
        while j < n
            invariant
                n == points@.len(),
                pts == views(points@),
                bounded(pts),
                len matches Some(m) ==> is_min_dist(pts, m@) && exists|i: int, j: int|
                    0 <= i < n && 0 <= j < n && i != j && m@ == sq_dist(pts[i], pts[j]),
                len is None ==> forall|i: int, j: int|
                    0 <= i < n && 0 <= j < n && i != j ==> !is_min_dist(
                        pts,
                        #[trigger] sq_dist(pts[i], pts[j]),
                    ),
                0 <= i < n,
                0 <= j <= n,
                neighbor_list_wf(row@, n as int, i as int),
                forall|a: int| 0 <= a < row@.len() ==> #[trigger] row@[a] < j,
                forall|j2: int|
                    0 <= j2 < n ==> (#[trigger] row@.contains(j2 as usize) <==> (j2 < j
                        && adjacent(pts, i as int, j2))),
            decreases n - j,
        {
            let ghost old_row = row@;
            if i != j {
                if let Some(m) = len {
                    proof {
                        assert(pts[i as int] == points@[i as int]@);
                        assert(pts[j as int] == points@[j as int]@);
                    }
                    let d = squared_distance(points[i], points[j]);
                    if d == m {
                        row.push(j);
                    }
                    proof {
                        let ghost (i0, j0) = choose|i0: int, j0: int|
                            0 <= i0 < n && 0 <= j0 < n && i0 != j0 && m@ == sq_dist(
                                pts[i0],
                                pts[j0],
                            );
                        if adjacent(pts, i as int, j as int) {
                            assert(gle(m@, sq_dist(pts[i as int], pts[j as int])));
                            assert(gle(sq_dist(pts[i as int], pts[j as int]), sq_dist(pts[i0], pts[j0])));
                            lemma_gle_antisymmetric(m@, d@);
                        }
                    }
                }
            }
            proof {
                assert forall|j2: int|
                    0 <= j2 < n implies (#[trigger] row@.contains(j2 as usize) <==> (j2 < j + 1
                    && adjacent(pts, i as int, j2))) by {
                    if j2 != j {
                        if row@.contains(j2 as usize) {
                            let a = choose|a: int| 0 <= a < row@.len() && row@[a] == j2 as usize;
                            if a < old_row.len() {
                                assert(old_row[a] == row@[a]);
                            }
                        }
                        if old_row.contains(j2 as usize) {
                            let a = choose|a: int| 0 <= a < old_row.len() && old_row[a] == j2 as usize;
                            assert(old_row[a] == row@[a]);
                        }
                    } else {
                        if row@.contains(j2 as usize) && !old_row.contains(j2 as usize) {
                            assert(row@.len() == old_row.len() + 1);
                        }
                        if row@.len() == old_row.len() + 1 {
                            assert(row@[old_row.len() as int] == j);
                        }
                    }
                }
            }
            j = j + 1;
        }
        r.push(row);
        proof {
            assert(r@[i as int]@ == row@);
        }
        i = i + 1;
    }
    r
}

} // verus!
