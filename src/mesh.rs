//! The icosahedron and the icosphere as index meshes over exact points.
use std::collections::HashMap;
use vstd::prelude::*;
use crate::faces::{
    discovered, discovered_triple, face_from, face_triple, find_faces, has_triple,
    is_discovered_face, lists_wf, outward, sort3,
};
use crate::geometry::{lemma_sq_dist_symmetric, sq_dist, Point, PointModel};
use crate::golden::lemma_gle_antisymmetric;
use crate::graph::{adjacent, is_min_dist, neighbor_list_wf, neighbors, views};
use crate::seed::{seed_corners, seed_points};
use crate::subdivide::{
    cache_wf, edge_count, faces_below, lemma_pow4_monotone, pow4, refine, split_edges, subdivide,
    Edge, Face,
};

verus! {

/// The faces of a flat index list, three indices each.
pub open spec fn triangles(idx: Seq<u32>) -> Seq<Face> {
    Seq::new((idx.len() / 3) as nat, |i: int| (idx[3 * i], idx[3 * i + 1], idx[3 * i + 2]))
}

/// The three corners of `f` are pairwise adjacent.
pub open spec fn mutual(pts: Seq<PointModel>, f: Face) -> bool {
    &&& adjacent(pts, f.0 as int, f.1 as int)
    &&& adjacent(pts, f.1 as int, f.2 as int)
    &&& adjacent(pts, f.0 as int, f.2 as int)
}

/// The three sides of `f` have the same length.
pub open spec fn equilateral(pts: Seq<PointModel>, f: Face) -> bool {
    let a = pts[f.0 as int];
    let b = pts[f.1 as int];
    let c = pts[f.2 as int];
    sq_dist(a, b) == sq_dist(b, c) && sq_dist(b, c) == sq_dist(a, c)
}

/// `idx` lists the faces of the icosahedron on the seed corners: every
/// face is a triple of pairwise adjacent corners wound outwards, no two faces
/// share their corners, and every triple of pairwise adjacent corners is a face.
pub open spec fn is_icosahedron(idx: Seq<u32>) -> bool {
    idx.len() % 3 == 0 && is_icosahedron_faces(triangles(idx))
}

/// Adjacency does not depend on the order of the two points.
pub proof fn lemma_adjacent_symmetric(pts: Seq<PointModel>, i: int, j: int)
    requires
        adjacent(pts, i, j),
    ensures
        adjacent(pts, j, i),
{
    lemma_sq_dist_symmetric(pts[i], pts[j]);
}

/// A face whose corners are pairwise adjacent is equilateral: each side is
/// the smallest distance, and so the sides are equal.
pub proof fn lemma_mutual_equilateral(pts: Seq<PointModel>, f: Face)
    requires
        mutual(pts, f),
    ensures
        equilateral(pts, f),
{
    let (a, b, c) = (f.0 as int, f.1 as int, f.2 as int);
    let ab = sq_dist(pts[a], pts[b]);
    let bc = sq_dist(pts[b], pts[c]);
    let ac = sq_dist(pts[a], pts[c]);
    assert(is_min_dist(pts, ab) && is_min_dist(pts, bc) && is_min_dist(pts, ac));
    lemma_gle_antisymmetric(ab, bc);
    lemma_gle_antisymmetric(bc, ac);
}

/// Flattens faces into an index list, three indices per face.
pub fn flatten(faces: &Vec<Face>) -> (r: Vec<u32>)
    ensures
        r@.len() == 3 * faces@.len(),
        triangles(r@) == faces@,
{
    let mut r: Vec<u32> = Vec::new();
    let mut k: usize = 0;
    while k < faces.len()
        invariant
            0 <= k <= faces@.len(),
            r@.len() == 3 * k,
            forall|j: int|
                0 <= j < k ==> r@[3 * j] == (#[trigger] faces@[j]).0 && r@[3 * j + 1] == faces@[j].1
                    && r@[3 * j + 2] == faces@[j].2,
        decreases faces@.len() - k,
    {
        let f = faces[k];
        r.push(f.0);
        r.push(f.1);
        r.push(f.2);
        k = k + 1;
    }
    proof {
        assert(triangles(r@) =~= faces@);
    }
    r
}

/// The neighbour lists hold exactly the adjacent points.
pub open spec fn lists_match(pts: Seq<PointModel>, nb: Seq<Vec<usize>>) -> bool {
    &&& pts.len() <= usize::MAX
    &&& lists_wf(nb, pts.len() as int)
    &&& forall|i: int, j: int|
        0 <= i < pts.len() && 0 <= j < pts.len() ==> (#[trigger] nb[i]@.contains(j as usize)
            <==> adjacent(pts, i, j))
}

/// A face discovered from the neighbour lists has pairwise adjacent corners.
proof fn lemma_discovered_mutual(pts: Seq<PointModel>, nb: Seq<Vec<usize>>, f: Face)
    requires
        lists_match(pts, nb),
        is_discovered_face(nb, f),
    ensures
        mutual(pts, f),
{
    let n = pts.len() as int;
    let (a, bi, ci) = choose|a: int, bi: int, ci: int| face_from(nb, f, a, bi, ci);
    let l = nb[a]@;
    let b = l[bi];
    let c = l[ci];
    assert(neighbor_list_wf(l, n, a));
    assert(l.contains(b));
    assert(l.contains(c));
    assert(nb[a]@.contains((b as int) as usize));
    assert(nb[a]@.contains((c as int) as usize));
    assert(adjacent(pts, a, b as int));
    assert(adjacent(pts, a, c as int));
    assert(neighbor_list_wf(nb[b as int]@, n, b as int));
    assert(nb[b as int]@.contains((c as int) as usize));
    assert(adjacent(pts, b as int, c as int));
    lemma_adjacent_symmetric(pts, b as int, c as int);
}

/// Three pairwise adjacent points are discovered from the first of them.
proof fn lemma_mutual_discovered(pts: Seq<PointModel>, nb: Seq<Vec<usize>>, a: int, b: int, c: int)
    requires
        lists_match(pts, nb),
        adjacent(pts, a, b),
        adjacent(pts, b, c),
        adjacent(pts, a, c),
    ensures
        exists|bi: int, ci: int|
            #[trigger] discovered(nb, a, bi, ci) && discovered_triple(nb, a, bi, ci) == sort3(
                a,
                b,
                c,
            ),
{
    let n = pts.len() as int;
    let l = nb[a]@;
    assert(0 <= b < n && 0 <= c < n && b != c);
    assert(neighbor_list_wf(l, n, a));
    assert(l.contains(b as usize));
    assert(l.contains(c as usize));
    let bi = choose|bi: int| 0 <= bi < l.len() && l[bi] == b as usize;
    let ci = choose|ci: int| 0 <= ci < l.len() && l[ci] == c as usize;
    if b < c {
        assert(bi < ci) by {
            if ci < bi {
                assert(l[ci] < l[bi]);
            }
        }
        assert(l[bi] as int == b);
        assert(nb[b]@.contains(c as usize));
        assert(discovered(nb, a, bi, ci));
        assert(discovered_triple(nb, a, bi, ci) == sort3(a, b, c));
    } else {
        assert(ci < bi) by {
            if bi < ci {
                assert(l[bi] < l[ci]);
            }
        }
        assert(l[ci] as int == c);
        lemma_adjacent_symmetric(pts, b, c);
        assert(nb[c]@.contains(b as usize));
        assert(discovered(nb, a, ci, bi));
        assert(discovered_triple(nb, a, ci, bi) == sort3(a, b, c));
    }
}

/// The faces that `find_faces` recovers from lists of adjacent points are
/// the triples of pairwise adjacent points.
proof fn lemma_found_faces(pts: Seq<PointModel>, nb: Seq<Vec<usize>>, faces: Seq<Face>)
    requires
        lists_match(pts, nb),
        forall|i: int| 0 <= i < faces.len() ==> is_discovered_face(nb, #[trigger] faces[i]),
        forall|a: int, bi: int, ci: int|
            #[trigger] discovered(nb, a, bi, ci) ==> has_triple(
                faces,
                discovered_triple(nb, a, bi, ci),
            ),
    ensures
        forall|i: int| 0 <= i < faces.len() ==> mutual(pts, #[trigger] faces[i]),
        forall|a: int, b: int, c: int|
            adjacent(pts, a, b) && adjacent(pts, b, c) && adjacent(pts, a, c) ==> has_triple(
                faces,
                #[trigger] sort3(a, b, c),
            ),
{
    assert forall|i: int| 0 <= i < faces.len() implies mutual(pts, #[trigger] faces[i]) by {
        lemma_discovered_mutual(pts, nb, faces[i]);
    }
    assert forall|a: int, b: int, c: int|
        adjacent(pts, a, b) && adjacent(pts, b, c) && adjacent(pts, a, c) implies has_triple(
        faces,
        #[trigger] sort3(a, b, c),
    ) by {
        lemma_mutual_discovered(pts, nb, a, b, c);
    }
}

/// The seed corners and the faces of the icosahedron on them.
fn base_mesh() -> (r: (Vec<Point>, Vec<Face>))
    ensures
        views(r.0@) == seed_corners(),
        r.1@.len() <= 1728,
        faces_below(r.1@, 12),
        is_icosahedron_faces(r.1@),
{
    let points = seed_points();
    proof {
        assert(views(points@) =~= seed_corners());
    }
    let nbrs = neighbors(&points);
    let faces = find_faces(&points, &nbrs);
    proof {
        assert(lists_match(views(points@), nbrs@));
        lemma_found_faces(views(points@), nbrs@, faces@);
    }
    (points, faces)
}

/// [`is_icosahedron`] on a sequence of faces.
pub open spec fn is_icosahedron_faces(fs: Seq<Face>) -> bool {
    let pts = seed_corners();
    &&& forall|i: int| 0 <= i < fs.len() ==> mutual(pts, #[trigger] fs[i]) && outward(pts, fs[i])
    &&& forall|i: int, j: int|
        0 <= i < j < fs.len() ==> face_triple(#[trigger] fs[i]) != face_triple(#[trigger] fs[j])
    &&& forall|a: int, b: int, c: int|
        adjacent(pts, a, b) && adjacent(pts, b, c) && adjacent(pts, a, c) ==> has_triple(
            fs,
            #[trigger] sort3(a, b, c),
        )
}

/// An icosahedron: twelve exact points on a common sphere and the index list
/// of its faces, three indices per face.
pub struct Icosahedron {
    pub points: Vec<Point>,
    pub indices: Vec<u32>,
}

impl Icosahedron {
    /// Builds the icosahedron from the golden rectangles, recovering its faces
    /// from the distances between its corners.
    pub fn new() -> (r: Icosahedron)
        ensures
            views(r.points@) == seed_corners(),
            is_icosahedron(r.indices@),
            forall|i: int|
                0 <= i < triangles(r.indices@).len() ==> equilateral(
                    seed_corners(),
                    #[trigger] triangles(r.indices@)[i],
                ),
    {
        let (points, faces) = base_mesh();
        let indices = flatten(&faces);
        proof {
            assert forall|i: int|
                0 <= i < triangles(indices@).len() implies equilateral(
                seed_corners(),
                #[trigger] triangles(indices@)[i],
            ) by {
                lemma_mutual_equilateral(seed_corners(), faces@[i]);
            }
        }
        Icosahedron { points, indices }
    }
}

/// The largest subdivision resolution that [`Icosphere::new`] accepts, so
/// that every vertex index fits in 32 bits.
pub const MAX_RESOLUTION: u8 = 10;

/// `idx` lists the faces obtained by refining the icosahedron `r` times, with
/// the midpoints of split edges numbered after the twelve corners as `mids`
/// records them: one midpoint for each edge that some pass split, and each
/// pass creating exactly one for every distinct edge of the faces it splits.
pub open spec fn is_icosphere(mids: Seq<Edge>, idx: Seq<u32>, r: nat) -> bool {
    exists|base: Seq<Face>, c: Map<u64, u32>|
        {
            &&& is_icosahedron_faces(base)
            &&& faces_below(base, 12)
            &&& cache_wf(c, 12, mids)
            &&& c.dom() == split_edges(base, c, r)
            &&& mids.len() == c.dom().len()
            &&& mids.len() == edge_count(base, c, r)
            &&& #[trigger] refine(base, c, r) == triangles(idx)
            &&& idx.len() == 3 * base.len() * pow4(r)
        }
}

/// An icosphere: the twelve corners of the icosahedron, the midpoints
/// created by subdivision, and the index list of its faces.
///
/// Vertex `12 + j` is the great-circle midpoint of the edge `midpoints[j]`,
/// whose ends are older vertices.
pub struct Icosphere {
    pub points: Vec<Point>,
    pub midpoints: Vec<Edge>,
    pub indices: Vec<u32>,
}

impl Icosphere {
    /// Subdivides the icosahedron `resolution` times.
    pub fn new(resolution: u8) -> (r: Icosphere)
        requires
            resolution <= MAX_RESOLUTION,
        ensures
            views(r.points@) == seed_corners(),
            r.indices@.len() % 3 == 0,
            faces_below(triangles(r.indices@), 12 + r.midpoints@.len() as int),
            is_icosphere(r.midpoints@, r.indices@, resolution as nat),
            resolution == 0 ==> r.midpoints@.len() == 0,
    {
        let (points, faces) = base_mesh();
        let mut mids: Vec<Edge> = Vec::new();
        let mut cache: HashMap<u64, u32> = HashMap::new();
        proof {
            assert(cache@.dom() =~= Set::<u64>::empty());
            let f = faces@.len();
            let p = pow4(resolution as nat);
            lemma_pow4_monotone(resolution as nat, 10);
            reveal_with_fuel(pow4, 11);
            assert(pow4(10) == 1048576);
            assert(f * p <= 1728 * 1048576) by (nonlinear_arith)
                requires
                    f <= 1728,
                    p <= 1048576,
            ;
        }
        let out = subdivide(faces, 12, resolution, &mut mids, &mut cache);
        let indices = flatten(&out);
        proof {
            let base = faces@;
            let f = base.len();
            let p = pow4(resolution as nat);
            assert(3 * (f * p) == 3 * f * p) by (nonlinear_arith);
            assert(refine(base, cache@, resolution as nat) == triangles(indices@));
            assert(cache@.dom() =~= split_edges(base, cache@, resolution as nat));
            assert(mids@.len() == cache@.dom().len());
            assert(mids@.len() == edge_count(base, cache@, resolution as nat));
            assert(cache_wf(cache@, 12, mids@));
        }
        Icosphere { points, midpoints: mids, indices }
    }
}

/// An icosphere of resolution zero is the icosahedron: its faces use the same
/// corner triples, and there are as many of them.
pub proof fn lemma_resolution_zero(mids: Seq<Edge>, sphere: Seq<u32>, ico: Seq<u32>)
    requires
        is_icosphere(mids, sphere, 0),
        is_icosahedron(ico),
    ensures
        triangles(sphere).map_values(|f: Face| face_triple(f)).to_set() == triangles(ico).map_values(
            |f: Face| face_triple(f),
        ).to_set(),
        triangles(sphere).len() == triangles(ico).len(),
{
    let (base, c) = choose|base: Seq<Face>, c: Map<u64, u32>|
        {
            &&& is_icosahedron_faces(base)
            &&& faces_below(base, 12)
            &&& cache_wf(c, 12, mids)
            &&& c.dom() == split_edges(base, c, 0)
            &&& mids.len() == c.dom().len()
            &&& mids.len() == edge_count(base, c, 0)
            &&& #[trigger] refine(base, c, 0) == triangles(sphere)
            &&& sphere.len() == 3 * base.len() * pow4(0)
        };
    let s = triangles(sphere);
    let t = triangles(ico);
    assert(s == base);
    lemma_same_triples(s, t);
}

/// Two face lists that both satisfy the description of the icosahedron have
/// the same corner triples and the same length.
proof fn lemma_same_triples(s: Seq<Face>, t: Seq<Face>)
    requires
        is_icosahedron_faces(s),
        is_icosahedron_faces(t),
    ensures
        s.map_values(|f: Face| face_triple(f)).to_set() == t.map_values(|f: Face| face_triple(f)).to_set(),
        s.len() == t.len(),
{
    let pts = seed_corners();
    let ss = s.map_values(|f: Face| face_triple(f));
    let ts = t.map_values(|f: Face| face_triple(f));
    assert forall|x: (int, int, int)| ss.to_set().contains(x) implies ts.to_set().contains(x) by {
        let i = choose|i: int| 0 <= i < ss.len() && ss[i] == x;
        let f = s[i];
        assert(mutual(pts, f));
        assert(has_triple(t, sort3(f.0 as int, f.1 as int, f.2 as int)));
        let j = choose|j: int| 0 <= j < t.len() && face_triple(t[j]) == face_triple(f);
        assert(ts[j] == x);
    }
    assert forall|x: (int, int, int)| ts.to_set().contains(x) implies ss.to_set().contains(x) by {
        let i = choose|i: int| 0 <= i < ts.len() && ts[i] == x;
        let f = t[i];
        assert(mutual(pts, f));
        assert(has_triple(s, sort3(f.0 as int, f.1 as int, f.2 as int)));
        let j = choose|j: int| 0 <= j < s.len() && face_triple(s[j]) == face_triple(f);
        assert(ss[j] == x);
    }
    assert(ss.to_set() =~= ts.to_set());
    assert(ss.no_duplicates()) by {
        assert forall|i: int, j: int| 0 <= i < ss.len() && 0 <= j < ss.len() && i != j implies ss[i]
            != ss[j] by {
            if i < j {
                assert(face_triple(s[i]) != face_triple(s[j]));
            } else {
                assert(face_triple(s[j]) != face_triple(s[i]));
            }
        }
    }
    assert(ts.no_duplicates()) by {
        assert forall|i: int, j: int| 0 <= i < ts.len() && 0 <= j < ts.len() && i != j implies ts[i]
            != ts[j] by {
            if i < j {
                assert(face_triple(t[i]) != face_triple(t[j]));
            } else {
                assert(face_triple(t[j]) != face_triple(t[i]));
            }
        }
    }
    ss.unique_seq_to_set();
    ts.unique_seq_to_set();
}

} // verus!
