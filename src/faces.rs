//! Recovery of triangular faces from the neighbour graph.
//!
//! Three points that are pairwise neighbours form a face. Each face is found
//! from each of its corners, so candidates are keyed by their sorted triple and
//! kept once. A face is wound so that it turns counter-clockwise seen from
//! outside: when the normal points towards the centre, two corners swap.
use std::collections::HashSet;
use vstd::prelude::*;
use crate::geometry::{lemma_orientation_swap, orientation, orientation_of, Point, PointModel};
use crate::golden::{gneg, gpos, lemma_gpos_antisymmetric};
use crate::graph::{bounded, neighbor_list_wf, views};
use crate::subdivide::{faces_below, Face};

verus! {

broadcast use vstd::std_specs::hash::group_hash_axioms;

/// The three indices in increasing order. Two triangles use the same corners
/// exactly when their sorted triples agree.
pub open spec fn sort3(a: int, b: int, c: int) -> (int, int, int) {
    if a <= b {
        if b <= c {
            (a, b, c)
        } else if a <= c {
            (a, c, b)
        } else {
            (c, a, b)
        }
    } else {
        if a <= c {
            (b, a, c)
        } else if b <= c {
            (b, c, a)
        } else {
            (c, b, a)
        }
    }
}

/// The sorted corners of a face.
pub open spec fn face_triple(f: Face) -> (int, int, int) {
    sort3(f.0 as int, f.1 as int, f.2 as int)
}

/// A number that identifies a triple of indices below `2^20`.
pub open spec fn triple_code(t: (int, int, int)) -> int {
    t.0 * 0x100_0000_0000 + t.1 * 0x10_0000 + t.2
}

/// The largest number of points whose triples can be coded.
pub const MAX_POINTS: usize = 0x10_0000;

/// The neighbour lists are well formed for `n` points.
pub open spec fn lists_wf(nbrs: Seq<Vec<usize>>, n: int) -> bool {
    &&& nbrs.len() == n
    &&& forall|i: int| 0 <= i < n ==> neighbor_list_wf(#[trigger] nbrs[i]@, n, i)
}

/// From corner `a`, its neighbours at positions `bi < ci` of its list are
/// themselves neighbours: the three form a face.
pub open spec fn discovered(nbrs: Seq<Vec<usize>>, a: int, bi: int, ci: int) -> bool {
    &&& 0 <= a < nbrs.len()
    &&& 0 <= bi < ci < nbrs[a]@.len()
    &&& nbrs[nbrs[a]@[bi] as int]@.contains(nbrs[a]@[ci])
}

/// The sorted triple of the face discovered from `a` at positions `bi`, `ci`.
pub open spec fn discovered_triple(nbrs: Seq<Vec<usize>>, a: int, bi: int, ci: int) -> (
    int,
    int,
    int,
) {
    sort3(a, nbrs[a]@[bi] as int, nbrs[a]@[ci] as int)
}

/// Face `f` is the face discovered from `a` at `bi`, `ci`, in one of its two
/// windings.
pub open spec fn face_from(nbrs: Seq<Vec<usize>>, f: Face, a: int, bi: int, ci: int) -> bool {
    let b = nbrs[a]@[bi] as int;
    let c = nbrs[a]@[ci] as int;
    &&& discovered(nbrs, a, bi, ci)
    &&& f.0 == a
    &&& (f.1 == b && f.2 == c) || (f.1 == c && f.2 == b)
}

/// Face `f` was discovered from one of its corners.
pub open spec fn is_discovered_face(nbrs: Seq<Vec<usize>>, f: Face) -> bool {
    exists|a: int, bi: int, ci: int| face_from(nbrs, f, a, bi, ci)
}

/// Some face has the sorted triple `t`.
pub open spec fn has_triple(faces: Seq<Face>, t: (int, int, int)) -> bool {
    exists|i: int| 0 <= i < faces.len() && face_triple(faces[i]) == t
}

/// The face is not wound inwards.
pub open spec fn outward(pts: Seq<PointModel>, f: Face) -> bool {
    !gpos(gneg(orientation(pts[f.0 as int], pts[f.1 as int], pts[f.2 as int])))
}

proof fn lemma_triple_code_injective(s: (int, int, int), t: (int, int, int))
    requires
        0 <= s.0 < 0x10_0000 && 0 <= s.1 < 0x10_0000 && 0 <= s.2 < 0x10_0000,
        0 <= t.0 < 0x10_0000 && 0 <= t.1 < 0x10_0000 && 0 <= t.2 < 0x10_0000,
        triple_code(s) == triple_code(t),
    ensures
        s == t,
{
}

/// The code of the sorted triple of `a`, `b`, `c`.
fn sorted_code(a: usize, b: usize, c: usize) -> (k: u64)
    requires
        a < MAX_POINTS,
        b < MAX_POINTS,
        c < MAX_POINTS,
    ensures
        k == triple_code(sort3(a as int, b as int, c as int)),
{
    let (x, y, z) = if a <= b {
        if b <= c {
            (a, b, c)
        } else if a <= c {
            (a, c, b)
        } else {
            (c, a, b)
        }
    } else {
        if a <= c {
            (b, a, c)
        } else if b <= c {
            (b, c, a)
        } else {
            (c, b, a)
        }
    };
    x as u64 * 0x100_0000_0000 + y as u64 * 0x10_0000 + z as u64
}

/// Whether `x` occurs in `l`.
fn list_contains(l: &Vec<usize>, x: usize) -> (r: bool)
    ensures
        r == l@.contains(x),
{
    let mut i: usize = 0;
    while i < l.len()
        invariant
            0 <= i <= l@.len(),
            forall|k: int| 0 <= k < i ==> l@[k] != x,
        decreases l@.len() - i,
    {
        if l[i] == x {
            return true;
        }
        i = i + 1;
    }
    false
}

/// The code of a face's sorted triple.
pub open spec fn face_code(f: Face) -> int {
    triple_code(face_triple(f))
}

proof fn lemma_list_len(l: Seq<usize>, n: int, i: int)
    requires
        neighbor_list_wf(l, n, i),
        0 <= n,
    ensures
        l.len() <= n,
{
    if l.len() > 0 {
        lemma_increasing_from(l, n, i, l.len() - 1);
        assert(l[l.len() - 1] < n);
    }
}

proof fn lemma_increasing_from(l: Seq<usize>, n: int, i: int, k: int)
    requires
        neighbor_list_wf(l, n, i),
        0 <= k < l.len(),
    ensures
        k <= l[k],
    decreases k,
{
    if k > 0 {
        lemma_increasing_from(l, n, i, k - 1);
        assert(l[k - 1] < l[k]);
    }
}

/// What the faces found so far satisfy, with `wit` naming where each was
/// discovered and `seen` holding the codes of their sorted triples.
#[verifier::opaque]
pub open spec fn table_inv(
    pts: Seq<PointModel>,
    nb: Seq<Vec<usize>>,
    faces: Seq<Face>,
    seen: Set<u64>,
    wit: Seq<(int, int, int)>,
) -> bool {
    &&& wit.len() == faces.len()
    &&& forall|i: int|
        0 <= i < faces.len() ==> face_from(nb, #[trigger] faces[i], wit[i].0, wit[i].1, wit[i].2)
    &&& forall|i: int| 0 <= i < faces.len() ==> outward(pts, #[trigger] faces[i])
    &&& forall|i: int, j: int|
        0 <= i < j < faces.len() ==> face_triple(#[trigger] faces[i]) != face_triple(
            #[trigger] faces[j],
        )
    &&& forall|i: int| 0 <= i < faces.len() ==> seen.contains(face_code(#[trigger] faces[i]) as u64)
    &&& forall|k: u64|
        #[trigger] seen.contains(k) ==> exists|i: int|
            0 <= i < faces.len() && face_code(#[trigger] faces[i]) as u64 == k
}

/// Adds the face discovered from `a` at `bi`, `ci` unless a face with the
/// same corners is already there, winding it outwards.
fn add_face(
    points: &Vec<Point>,
    nbrs: &Vec<Vec<usize>>,
    a: usize,
    bi: usize,
    ci: usize,
    faces: &mut Vec<Face>,
    seen: &mut HashSet<u64>,
    Ghost(wit): Ghost<Seq<(int, int, int)>>,
) -> (new_wit: Ghost<Seq<(int, int, int)>>)
    requires
        points@.len() <= MAX_POINTS,
        bounded(views(points@)),
        lists_wf(nbrs@, points@.len() as int),
        discovered(nbrs@, a as int, bi as int, ci as int),
        table_inv(views(points@), nbrs@, old(faces)@, old(seen)@, wit),
    ensures
        table_inv(views(points@), nbrs@, final(faces)@, final(seen)@, new_wit@),
        old(seen)@.subset_of(final(seen)@),
        final(seen)@.contains(triple_code(discovered_triple(nbrs@, a as int, bi as int, ci as int)) as u64),
        final(faces)@.len() <= old(faces)@.len() + 1,
{
    let ghost pts = views(points@);
    let ghost nb = nbrs@;
    let ghost n = points@.len() as int;
    let b = nbrs[a][bi];
    let c = nbrs[a][ci];
    proof {
        assert(neighbor_list_wf(nb[a as int]@, n, a as int));
        assert(b < n && c < n);
    }
    let key = sorted_code(a, b, c);
    if seen.contains(&key) {
        return Ghost(wit);
    }
    let ghost old_faces = faces@;
    let ghost old_seen = seen@;
    seen.insert(key);
    proof {
        assert(pts[a as int] == points@[a as int]@);
        assert(pts[b as int] == points@[b as int]@);
        assert(pts[c as int] == points@[c as int]@);
    }
    let o = orientation_of(points[a], points[b], points[c]);
    let f: Face = if o.neg().is_positive() {
        proof {
            lemma_orientation_swap(pts[a as int], pts[b as int], pts[c as int]);
            lemma_gpos_antisymmetric(o@);
            assert(gneg(gneg(o@)) == o@);
        }
        (a as u32, c as u32, b as u32)
    } else {
        (a as u32, b as u32, c as u32)
    };
    faces.push(f);
    let ghost w = wit.push((a as int, bi as int, ci as int));
    proof {
        reveal(table_inv);
        assert(face_triple(f) == sort3(a as int, b as int, c as int));
        assert(face_from(nb, f, a as int, bi as int, ci as int));
        assert forall|i: int, j: int|
            0 <= i < j < faces@.len() implies face_triple(#[trigger] faces@[i]) != face_triple(
            #[trigger] faces@[j],
        ) by {
            assert(faces@[i] == old_faces[i]);
            if j == faces@.len() - 1 {
                assert(old_seen.contains(face_code(old_faces[i]) as u64));
            } else {
                assert(faces@[j] == old_faces[j]);
            }
        }
        assert forall|i: int|
            0 <= i < faces@.len() implies seen@.contains(face_code(#[trigger] faces@[i]) as u64) by {
            if i < faces@.len() - 1 {
                assert(faces@[i] == old_faces[i]);
            }
        }
        assert forall|k: u64| #[trigger] seen@.contains(k) implies exists|i: int|
            0 <= i < faces@.len() && face_code(#[trigger] faces@[i]) as u64 == k by {
            if k == key {
                assert(face_code(faces@[faces@.len() - 1]) as u64 == k);
            } else {
                assert(old_seen.contains(k));
                let i = choose|i: int|
                    0 <= i < old_faces.len() && face_code(#[trigger] old_faces[i]) as u64 == k;
                assert(faces@[i] == old_faces[i]);
            }
        }
        assert forall|i: int|
            0 <= i < faces@.len() implies face_from(nb, #[trigger] faces@[i], w[i].0, w[i].1, w[i].2)
            by {
            if i < faces@.len() - 1 {
                assert(faces@[i] == old_faces[i]);
            }
        }
        assert forall|i: int| 0 <= i < faces@.len() implies outward(pts, #[trigger] faces@[i]) by {
            if i < faces@.len() - 1 {
                assert(faces@[i] == old_faces[i]);
            }
        }
    }
    Ghost(w)
}

/// Every face was discovered somewhere, and every face faces outwards.
proof fn lemma_table_sound(
    pts: Seq<PointModel>,
    nb: Seq<Vec<usize>>,
    faces: Seq<Face>,
    seen: Set<u64>,
    wit: Seq<(int, int, int)>,
)
    requires
        lists_wf(nb, nb.len() as int),
        table_inv(pts, nb, faces, seen, wit),
    ensures
        faces_below(faces, nb.len() as int),
        forall|i: int|
            0 <= i < faces.len() ==> is_discovered_face(nb, #[trigger] faces[i]),
        forall|i: int| 0 <= i < faces.len() ==> outward(pts, #[trigger] faces[i]),
        forall|i: int, j: int|
            0 <= i < j < faces.len() ==> face_triple(#[trigger] faces[i]) != face_triple(
                #[trigger] faces[j],
            ),
{
    reveal(table_inv);
    assert forall|i: int|
        0 <= i < faces.len() implies is_discovered_face(nb, #[trigger] faces[i]) by {
        let w = wit[i];
        assert(face_from(nb, faces[i], w.0, w.1, w.2));
    }
    assert forall|i: int| 0 <= i < faces.len() implies #[trigger] faces[i].0 < nb.len()
        && faces[i].1 < nb.len() && faces[i].2 < nb.len() by {
        let w = wit[i];
        assert(face_from(nb, faces[i], w.0, w.1, w.2));
        assert(neighbor_list_wf(nb[w.0]@, nb.len() as int, w.0));
    }
}

/// Once every discovered triple's code is in `seen`, every discovered triple
/// is the sorted triple of some face.
proof fn lemma_table_complete(
    pts: Seq<PointModel>,
    nb: Seq<Vec<usize>>,
    faces: Seq<Face>,
    seen: Set<u64>,
    wit: Seq<(int, int, int)>,
)
    requires
        nb.len() <= MAX_POINTS,
        lists_wf(nb, nb.len() as int),
        table_inv(pts, nb, faces, seen, wit),
        forall|a2: int, bi: int, ci: int|
            0 <= a2 < nb.len() && #[trigger] discovered(nb, a2, bi, ci) ==> seen.contains(
                triple_code(discovered_triple(nb, a2, bi, ci)) as u64,
            ),
    ensures
        forall|a: int, bi: int, ci: int|
            #[trigger] discovered(nb, a, bi, ci) ==> has_triple(faces, discovered_triple(nb, a, bi, ci)),
{
    reveal(table_inv);
    let n = nb.len() as int;
    assert forall|a2: int, bi: int, ci: int|
        #[trigger] discovered(nb, a2, bi, ci) implies has_triple(faces, discovered_triple(nb, a2, bi, ci)) by {
        let t = discovered_triple(nb, a2, bi, ci);
        assert(seen.contains(triple_code(t) as u64));
        let i = choose|i: int|
            0 <= i < faces.len() && face_code(#[trigger] faces[i]) as u64 == triple_code(t) as u64;
        assert(neighbor_list_wf(nb[a2]@, n, a2));
        let f = faces[i];
        let w = wit[i];
        assert(face_from(nb, f, w.0, w.1, w.2));
        assert(neighbor_list_wf(nb[w.0]@, n, w.0));
        lemma_triple_code_injective(face_triple(f), t);
    }
}

/// The faces of the solid whose neighbour lists are `nbrs`.
///
/// Every face is a triple of pairwise neighbours discovered from one of its
/// corners, wound so that it is not turned towards the centre; every such
/// triple gives exactly one face.
pub fn find_faces(points: &Vec<Point>, nbrs: &Vec<Vec<usize>>) -> (faces: Vec<Face>)
    requires
        points@.len() <= MAX_POINTS,
        bounded(views(points@)),
        lists_wf(nbrs@, points@.len() as int),
    ensures
        faces_below(faces@, points@.len() as int),
        forall|i: int|
            0 <= i < faces@.len() ==> is_discovered_face(nbrs@, #[trigger] faces@[i]),
        forall|i: int| 0 <= i < faces@.len() ==> outward(views(points@), #[trigger] faces@[i]),
        forall|i: int, j: int|
            0 <= i < j < faces@.len() ==> face_triple(#[trigger] faces@[i]) != face_triple(
                #[trigger] faces@[j],
            ),
        forall|a: int, bi: int, ci: int|
            #[trigger] discovered(nbrs@, a, bi, ci) ==> has_triple(faces@, discovered_triple(nbrs@, a, bi, ci)),
        faces@.len() <= points@.len() * points@.len() * points@.len(),
{
    let ghost pts = views(points@);
    let ghost nb = nbrs@;
    let n = points.len();
    let mut faces: Vec<Face> = Vec::new();
    let mut seen: HashSet<u64> = HashSet::new();
    let ghost mut wit: Seq<(int, int, int)> = seq![];
    let ghost mut iters: int = 0;
    proof {
        reveal(table_inv);
    }
    let mut a: usize = 0;
    while a < n
        invariant
            n == points@.len(),
            n <= MAX_POINTS,
            pts == views(points@),
            nb == nbrs@,
            bounded(pts),
            lists_wf(nb, n as int),
            0 <= a <= n,
            table_inv(pts, nb, faces@, seen@, wit),
            forall|a2: int, bi: int, ci: int|
                0 <= a2 < a && #[trigger] discovered(nb, a2, bi, ci) ==> seen@.contains(
                    triple_code(discovered_triple(nb, a2, bi, ci)) as u64,
                ),
            faces@.len() <= iters,
            iters <= a * n * n,
        decreases n - a,
    {
        let ghost iters_a = iters;
        let row = &nbrs[a];
        proof {
            assert(neighbor_list_wf(nb[a as int]@, n as int, a as int));
            lemma_list_len(nb[a as int]@, n as int, a as int);
        }
        let mut bi: usize = 0;
        while bi < row.len()
            invariant
                n == points@.len(),
                n <= MAX_POINTS,
                pts == views(points@),
                nb == nbrs@,
                bounded(pts),
                lists_wf(nb, n as int),
                0 <= a < n,
                row@ == nb[a as int]@,
                row@.len() <= n,
                0 <= bi <= row@.len(),
                table_inv(pts, nb, faces@, seen@, wit),
                forall|a2: int, bi2: int, ci: int|
                    0 <= a2 < a && #[trigger] discovered(nb, a2, bi2, ci) ==> seen@.contains(
                        triple_code(discovered_triple(nb, a2, bi2, ci)) as u64,
                    ),
                forall|bi2: int, ci: int|
                    0 <= bi2 < bi && #[trigger] discovered(nb, a as int, bi2, ci) ==> seen@.contains(
                        triple_code(discovered_triple(nb, a as int, bi2, ci)) as u64,
                    ),
                faces@.len() <= iters,
                iters_a <= a * n * n,
                iters <= iters_a + bi * n,
            decreases row@.len() - bi,
        {
            let ghost iters_b = iters;
            let mut ci: usize = bi + 1;
            while ci < row.len()
                invariant
                    n == points@.len(),
                    n <= MAX_POINTS,
                    pts == views(points@),
                    nb == nbrs@,
                    bounded(pts),
                    lists_wf(nb, n as int),
                    0 <= a < n,
                    row@ == nb[a as int]@,
                    row@.len() <= n,
                    0 <= bi < row@.len(),
                    bi < ci <= row@.len(),
                    table_inv(pts, nb, faces@, seen@, wit),
                    forall|a2: int, bi2: int, ci2: int|
                        0 <= a2 < a && #[trigger] discovered(nb, a2, bi2, ci2) ==> seen@.contains(
                            triple_code(discovered_triple(nb, a2, bi2, ci2)) as u64,
                        ),
                    forall|bi2: int, ci2: int|
                        0 <= bi2 < bi && #[trigger] discovered(nb, a as int, bi2, ci2)
                            ==> seen@.contains(
                            triple_code(discovered_triple(nb, a as int, bi2, ci2)) as u64,
                        ),
                    forall|ci2: int|
                        bi < ci2 < ci && #[trigger] discovered(nb, a as int, bi as int, ci2)
                            ==> seen@.contains(
                            triple_code(discovered_triple(nb, a as int, bi as int, ci2)) as u64,
                        ),
                    faces@.len() <= iters,
                    iters_a <= a * n * n,
                    iters_b <= iters_a + bi * n,
                    iters <= iters_b + ci,
                decreases row@.len() - ci,
            {
                let b = row[bi];
                let c = row[ci];
                proof {
                    assert(neighbor_list_wf(nb[a as int]@, n as int, a as int));
                    assert(b < n);
                }
                if list_contains(&nbrs[b], c) {
                    let Ghost(w) = add_face(points, nbrs, a, bi, ci, &mut faces, &mut seen, Ghost(wit));
                    proof {
                        wit = w;
                    }
                }
                proof {
                    iters = iters + 1;
                }
                ci = ci + 1;
            }
            proof {
                assert(iters_b + row@.len() <= iters_a + (bi + 1) * n) by (nonlinear_arith)
                    requires
                        iters_b <= iters_a + bi * n,
                        row@.len() <= n,
                ;
            }
            bi = bi + 1;
        }
        proof {
            assert(iters_a + row@.len() * n <= (a + 1) * n * n) by (nonlinear_arith)
                requires
                    iters_a <= a * n * n,
                    row@.len() <= n,
            ;
        }
        a = a + 1;
    }
    proof {
        lemma_table_sound(pts, nb, faces@, seen@, wit);
        lemma_table_complete(pts, nb, faces@, seen@, wit);
    }
    faces
}

} // verus!
