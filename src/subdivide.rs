//! Spherical subdivision of a triangle mesh, as pure index bookkeeping.
//!
//! Every pass splits each face at the midpoints of its three edges. A cache
//! keyed by the canonical edge makes sure that an edge gets one midpoint vertex
//! however many faces share it, across all passes of one run.
use std::collections::HashMap;
use vstd::prelude::*;

verus! {

broadcast use vstd::std_specs::hash::group_hash_axioms;

/// A triangle as three vertex indices; their order gives the winding.
pub type Face = (u32, u32, u32);

/// An edge as two vertex indices, the smaller one first.
pub type Edge = (u32, u32);

/// The canonical key of the edge between `a` and `b`: the larger index in the
/// high half, the smaller in the low half, so that both directions agree.
pub open spec fn edge_key(a: u32, b: u32) -> u64 {
    if a <= b {
        (b as int * 0x1_0000_0000 + a as int) as u64
    } else {
        (a as int * 0x1_0000_0000 + b as int) as u64
    }
}

/// The edge between `a` and `b` with the smaller index first.
pub open spec fn canonical_edge(a: u32, b: u32) -> Edge {
    if a <= b {
        (a, b)
    } else {
        (b, a)
    }
}

/// Computes the canonical key of the edge between `a` and `b`.
pub fn edge_key_of(a: u32, b: u32) -> (k: u64)
    ensures
        k == edge_key(a, b),
{
    if a <= b {
        b as u64 * 0x1_0000_0000 + a as u64
    } else {
        a as u64 * 0x1_0000_0000 + b as u64
    }
}

/// The keys of the three edges of a face.
pub open spec fn face_keys(f: Face) -> Set<u64> {
    set![edge_key(f.0, f.1), edge_key(f.1, f.2), edge_key(f.0, f.2)]
}

/// The keys of all edges of a sequence of faces.
pub open spec fn edge_keys(faces: Seq<Face>) -> Set<u64>
    decreases faces.len(),
{
    if faces.len() == 0 {
        Set::empty()
    } else {
        edge_keys(faces.drop_last()).union(face_keys(faces.last()))
    }
}

/// Every index of every face is below `n`.
pub open spec fn faces_below(faces: Seq<Face>, n: int) -> bool {
    forall|i: int|
        0 <= i < faces.len() ==> (#[trigger] faces[i]).0 < n && faces[i].1 < n && faces[i].2 < n
}

/// The index of the midpoint that `cache` holds for the edge between `a` and `b`.
pub open spec fn midpoint_in(cache: Map<u64, u32>, a: u32, b: u32) -> u32 {
    cache[edge_key(a, b)]
}

/// The four faces that replace `f`: one at each corner and the central one.
/// Each keeps the winding of `f`.
pub open spec fn children(f: Face, cache: Map<u64, u32>) -> Seq<Face> {
    let i01 = midpoint_in(cache, f.0, f.1);
    let i02 = midpoint_in(cache, f.0, f.2);
    let i12 = midpoint_in(cache, f.1, f.2);
    seq![(f.0, i01, i02), (i01, f.1, i12), (i02, i12, f.2), (i01, i12, i02)]
}

/// The children of every face, face after face.
pub open spec fn children_all(faces: Seq<Face>, cache: Map<u64, u32>) -> Seq<Face>
    decreases faces.len(),
{
    if faces.len() == 0 {
        seq![]
    } else {
        children_all(faces.drop_last(), cache) + children(faces.last(), cache)
    }
}

/// The faces after `r` passes, each pass reading its midpoints from `cache`.
pub open spec fn refine(faces: Seq<Face>, cache: Map<u64, u32>, r: nat) -> Seq<Face>
    decreases r,
{
    if r == 0 {
        faces
    } else {
        children_all(refine(faces, cache, (r - 1) as nat), cache)
    }
}

/// The midpoint cache agrees with the list of created midpoints.
///
/// Vertex `base + j` is the midpoint of edge `mids[j]`, whose two ends are
/// older vertices; the cache maps that edge's key to it, and holds no index
/// that does not exist yet.
pub open spec fn cache_wf(cache: Map<u64, u32>, base: int, mids: Seq<Edge>) -> bool {
    &&& forall|k: u64| #[trigger] cache.contains_key(k) ==> cache[k] < base + mids.len()
    &&& forall|j: int| 0 <= j < mids.len() ==> recorded(cache, #[trigger] mids[j], base + j)
}

/// Vertex `v` is the midpoint of edge `e`: the ends of `e` are older than `v`,
/// and the cache maps the key of `e` to `v`.
pub open spec fn recorded(cache: Map<u64, u32>, e: Edge, v: int) -> bool {
    &&& e.0 <= e.1
    &&& e.1 < v
    &&& cache.contains_key(edge_key(e.0, e.1))
    &&& cache[edge_key(e.0, e.1)] == v
}

/// `c2` holds every entry of `c1`, unchanged.
pub open spec fn keeps(c1: Map<u64, u32>, c2: Map<u64, u32>) -> bool {
    forall|k: u64| #[trigger] c1.contains_key(k) ==> c2.contains_key(k) && c2[k] == c1[k]
}

proof fn lemma_edge_key_canonical(a: u32, b: u32)
    ensures
        edge_key(canonical_edge(a, b).0, canonical_edge(a, b).1) == edge_key(a, b),
        canonical_edge(a, b).0 <= canonical_edge(a, b).1,
{
}

/// Returns the midpoint vertex of the edge between `a` and `b`, creating it
/// when the edge has not been split before.
fn split_edge(
    a: u32,
    b: u32,
    base: u32,
    mids: &mut Vec<Edge>,
    cache: &mut HashMap<u64, u32>,
) -> (m: u32)
    requires
        base + old(mids)@.len() < u32::MAX,
        a < base + old(mids)@.len(),
        b < base + old(mids)@.len(),
        cache_wf(old(cache)@, base as int, old(mids)@),
    ensures
        cache_wf(final(cache)@, base as int, final(mids)@),
        final(cache)@.contains_key(edge_key(a, b)),
        m == final(cache)@[edge_key(a, b)],
        old(cache)@.contains_key(edge_key(a, b)) ==> final(cache)@ == old(cache)@ && final(mids)@
            == old(mids)@,
        !old(cache)@.contains_key(edge_key(a, b)) ==> {
            &&& m == base + old(mids)@.len()
            &&& final(cache)@ == old(cache)@.insert(edge_key(a, b), m)
            &&& final(mids)@ == old(mids)@.push(canonical_edge(a, b))
        },
{
    let k = edge_key_of(a, b);
    match cache.get(&k) {
        Some(m) => *m,
        None => {
            let m = base + mids.len() as u32;
            let e = if a <= b {
                (a, b)
            } else {
                (b, a)
            };
            proof {
                lemma_edge_key_canonical(a, b);
            }
            mids.push(e);
            cache.insert(k, m);
            assert(cache@ == old(cache)@.insert(k, m));
            assert(cache_wf(cache@, base as int, mids@)) by {
                assert forall|q: u64| #[trigger] cache@.contains_key(q) implies cache@[q] < base
                    + mids@.len() by {
                    if q != k {
                        assert(old(cache)@.contains_key(q));
                    }
                }
                assert forall|j: int| 0 <= j < mids@.len() implies recorded(
                    cache@,
                    #[trigger] mids@[j],
                    base + j,
                ) by {
                    if j < mids@.len() - 1 {
                        assert(mids@[j] == old(mids)@[j]);
                        assert(recorded(old(cache)@, old(mids)@[j], base + j));
                    } else {
                        assert(mids@[j] == e);
                        assert(edge_key(e.0, e.1) == k);
                    }
                }
            }
            m
        },
    }
}

proof fn lemma_grow_count(d0: Set<u64>, d: Set<u64>, k: u64)
    requires
        d.finite(),
        !d.contains(k),
        d0.subset_of(d),
    ensures
        d.insert(k).difference(d0).len() == d.difference(d0).len() + 1,
{
    assert(d.insert(k).difference(d0) =~= d.difference(d0).insert(k));
}

/// Faces that only read cache entries present in both caches get the same
/// children from either.
proof fn lemma_children_all_stable(s: Seq<Face>, c1: Map<u64, u32>, c2: Map<u64, u32>)
    requires
        keeps(c1, c2),
        edge_keys(s).subset_of(c1.dom()),
    ensures
        children_all(s, c1) == children_all(s, c2),
    decreases s.len(),
{
    if s.len() > 0 {
        lemma_children_all_stable(s.drop_last(), c1, c2);
        let f = s.last();
        assert(edge_keys(s) == edge_keys(s.drop_last()).union(face_keys(f)));
        assert(c1.dom().contains(edge_key(f.0, f.1)));
        assert(c1.dom().contains(edge_key(f.0, f.2)));
        assert(c1.dom().contains(edge_key(f.1, f.2)));
        assert(midpoint_in(c1, f.0, f.1) == midpoint_in(c2, f.0, f.1));
        assert(midpoint_in(c1, f.0, f.2) == midpoint_in(c2, f.0, f.2));
        assert(midpoint_in(c1, f.1, f.2) == midpoint_in(c2, f.1, f.2));
        assert(children(f, c1) =~= children(f, c2));
    }
}

proof fn lemma_face_in_edge_keys(s: Seq<Face>, i: int)
    requires
        0 <= i < s.len(),
    ensures
        face_keys(s[i]).subset_of(edge_keys(s)),
    decreases s.len(),
{
    if i < s.len() - 1 {
        lemma_face_in_edge_keys(s.drop_last(), i);
        assert(s.drop_last()[i] == s[i]);
    }
}

proof fn lemma_children_all_len(s: Seq<Face>, c: Map<u64, u32>)
    ensures
        children_all(s, c).len() == 4 * s.len(),
    decreases s.len(),
{
    if s.len() > 0 {
        lemma_children_all_len(s.drop_last(), c);
    }
}

/// One subdivision pass: each face becomes its four children.
///
/// The midpoint of an edge is taken from `cache` when the edge was split
/// before, and created otherwise, so each pass creates exactly one vertex per
/// edge that `cache` does not know yet.
pub fn subdivide_pass(
    faces: &Vec<Face>,
    base: u32,
    mids: &mut Vec<Edge>,
    cache: &mut HashMap<u64, u32>,
) -> (out: Vec<Face>)
    requires
        base + old(mids)@.len() + 3 * faces@.len() <= u32::MAX,
        faces_below(faces@, base + old(mids)@.len()),
        cache_wf(old(cache)@, base as int, old(mids)@),
    ensures
        cache_wf(final(cache)@, base as int, final(mids)@),
        keeps(old(cache)@, final(cache)@),
        final(cache)@.dom() == old(cache)@.dom().union(edge_keys(faces@)),
        final(mids)@.len() == old(mids)@.len() + edge_keys(faces@).difference(
            old(cache)@.dom(),
        ).len(),
        edge_keys(faces@).disjoint(old(cache)@.dom()) ==> final(mids)@.len() == old(mids)@.len()
            + edge_keys(faces@).len(),
        forall|k: u64|
            #[trigger] final(cache)@.contains_key(k) && !old(cache)@.contains_key(k)
                ==> final(cache)@[k] >= base + old(mids)@.len(),
        final(mids)@.len() <= old(mids)@.len() + 3 * faces@.len(),
        final(mids)@.subrange(0, old(mids)@.len() as int) == old(mids)@,
        out@ == children_all(faces@, final(cache)@),
        out@.len() == 4 * faces@.len(),
        faces_below(out@, base + final(mids)@.len()),
{
    let mut out: Vec<Face> = Vec::new();
    let mut i: usize = 0;
    proof {
        assert(faces@.take(0) =~= Seq::<Face>::empty());
        assert(cache@.dom().difference(old(cache)@.dom()) =~= Set::empty());
        assert(mids@.subrange(0, mids@.len() as int) =~= mids@);
    }
    while i < faces.len()
        invariant
            0 <= i <= faces@.len(),
            base + old(mids)@.len() + 3 * faces@.len() <= u32::MAX,
            faces_below(faces@, base + old(mids)@.len()),
            cache_wf(cache@, base as int, mids@),
            keeps(old(cache)@, cache@),
            cache@.dom() == old(cache)@.dom().union(edge_keys(faces@.take(i as int))),
            mids@.len() == old(mids)@.len() + cache@.dom().difference(old(cache)@.dom()).len(),
            mids@.len() <= old(mids)@.len() + 3 * i,
            mids@.subrange(0, old(mids)@.len() as int) == old(mids)@,
            forall|k: u64|
                #[trigger] cache@.contains_key(k) && !old(cache)@.contains_key(k) ==> cache@[k]
                    >= base + old(mids)@.len(),
            out@ == children_all(faces@.take(i as int), cache@),
            faces_below(out@, base + mids@.len()),
        decreases faces@.len() - i,
    {
        let f = faces[i];
        let ghost c0 = cache@;
        let ghost m0 = mids@;
        proof {
            assert(faces@[i as int] == f);
        }
        let i01 = split_edge(f.0, f.1, base, mids, cache);
        proof {
            if !c0.contains_key(edge_key(f.0, f.1)) {
                lemma_grow_count(old(cache)@.dom(), c0.dom(), edge_key(f.0, f.1));
                assert(cache@.dom() =~= c0.dom().insert(edge_key(f.0, f.1)));
            }
        }
        let ghost c1 = cache@;
        let i02 = split_edge(f.0, f.2, base, mids, cache);
        proof {
            if !c1.contains_key(edge_key(f.0, f.2)) {
                lemma_grow_count(old(cache)@.dom(), c1.dom(), edge_key(f.0, f.2));
                assert(cache@.dom() =~= c1.dom().insert(edge_key(f.0, f.2)));
            }
        }
        let ghost c2 = cache@;
        let i12 = split_edge(f.1, f.2, base, mids, cache);
        proof {
            if !c2.contains_key(edge_key(f.1, f.2)) {
                lemma_grow_count(old(cache)@.dom(), c2.dom(), edge_key(f.1, f.2));
                assert(cache@.dom() =~= c2.dom().insert(edge_key(f.1, f.2)));
            }
        }
        assert(m0.len() <= mids@.len());
        assert(i01 < base + mids@.len());
        assert(i02 < base + mids@.len());
        let ghost prev = out@;
        out.push((f.0, i01, i02));
        out.push((i01, f.1, i12));
        out.push((i02, i12, f.2));
        out.push((i01, i12, i02));
        proof {
            let s = faces@.take(i as int + 1);
            assert(s.drop_last() =~= faces@.take(i as int));
            assert(s.last() == f);
            assert(keeps(c0, cache@));
            lemma_children_all_stable(faces@.take(i as int), c0, cache@);
            assert(out@ =~= prev + children(f, cache@));
            assert forall|j: int| 0 <= j < out@.len() implies #[trigger] out@[j].0 < base
                + mids@.len() && out@[j].1 < base + mids@.len() && out@[j].2 < base
                + mids@.len() by {
                if j < prev.len() {
                    assert(out@[j] == prev[j]);
                    assert(prev[j].0 < base + m0.len());
                }
            }
            assert(cache@.dom() =~= old(cache)@.dom().union(edge_keys(s)));
            assert(mids@.subrange(0, old(mids)@.len() as int) =~= old(mids)@);
        }
        i = i + 1;
    }
    proof {
        assert(faces@.take(faces@.len() as int) =~= faces@);
        assert(cache@.dom().difference(old(cache)@.dom()) =~= edge_keys(faces@).difference(
            old(cache)@.dom(),
        ));
        if edge_keys(faces@).disjoint(old(cache)@.dom()) {
            assert(edge_keys(faces@).difference(old(cache)@.dom()) =~= edge_keys(faces@));
        }
        lemma_children_all_len(faces@, cache@);
    }
    out
}

/// Four to the power `r`: how many faces each face becomes after `r` passes.
pub open spec fn pow4(r: nat) -> nat
    decreases r,
{
    if r == 0 {
        1
    } else {
        4 * pow4((r - 1) as nat)
    }
}

/// The keys of every edge split by the first `r` passes.
pub open spec fn split_edges(faces: Seq<Face>, cache: Map<u64, u32>, r: nat) -> Set<u64>
    decreases r,
{
    if r == 0 {
        Set::empty()
    } else {
        let p = (r - 1) as nat;
        split_edges(faces, cache, p).union(edge_keys(refine(faces, cache, p)))
    }
}

proof fn lemma_split_edges_stable(faces: Seq<Face>, c1: Map<u64, u32>, c2: Map<u64, u32>, k: nat)
    requires
        keeps(c1, c2),
        forall|l: nat| l < k ==> #[trigger] edge_keys(refine(faces, c1, l)).subset_of(c1.dom()),
    ensures
        split_edges(faces, c1, k) == split_edges(faces, c2, k),
    decreases k,
{
    if k > 0 {
        let p = (k - 1) as nat;
        lemma_split_edges_stable(faces, c1, c2, p);
        lemma_refine_stable(faces, c1, c2, p);
    }
}

proof fn lemma_edge_keys_finite(faces: Seq<Face>)
    ensures
        edge_keys(faces).finite(),
    decreases faces.len(),
{
    if faces.len() > 0 {
        lemma_edge_keys_finite(faces.drop_last());
    }
}

/// How many distinct edges the first `r` passes split, pass by pass.
pub open spec fn edge_count(faces: Seq<Face>, cache: Map<u64, u32>, r: nat) -> nat
    decreases r,
{
    if r == 0 {
        0
    } else {
        let p = (r - 1) as nat;
        edge_count(faces, cache, p) + edge_keys(refine(faces, cache, p)).len()
    }
}

proof fn lemma_edge_count_stable(faces: Seq<Face>, c1: Map<u64, u32>, c2: Map<u64, u32>, k: nat)
    requires
        keeps(c1, c2),
        forall|l: nat| l < k ==> #[trigger] edge_keys(refine(faces, c1, l)).subset_of(c1.dom()),
    ensures
        edge_count(faces, c1, k) == edge_count(faces, c2, k),
    decreases k,
{
    if k > 0 {
        let p = (k - 1) as nat;
        lemma_edge_count_stable(faces, c1, c2, p);
        lemma_refine_stable(faces, c1, c2, p);
    }
}

/// At most one corner of `f` is below `m`: every edge of `f` has an end at
/// `m` or above.
pub open spec fn face_reaches(f: Face, m: int) -> bool {
    (f.0 >= m && f.1 >= m) || (f.0 >= m && f.2 >= m) || (f.1 >= m && f.2 >= m)
}

proof fn lemma_edge_key_value(a: u32, b: u32)
    ensures
        edge_key(a, b) as int == if a <= b {
            b as int * 0x1_0000_0000 + a as int
        } else {
            a as int * 0x1_0000_0000 + b as int
        },
{
}

proof fn lemma_edge_keys_below(s: Seq<Face>, m: int)
    requires
        faces_below(s, m),
        0 <= m <= 0x1_0000_0000,
    ensures
        forall|k: u64| #[trigger] edge_keys(s).contains(k) ==> k < m * 0x1_0000_0000,
    decreases s.len(),
{
    if s.len() > 0 {
        let t = s.drop_last();
        assert(faces_below(t, m)) by {
            assert forall|i: int| 0 <= i < t.len() implies (#[trigger] t[i]).0 < m && t[i].1 < m
                && t[i].2 < m by {
                assert(t[i] == s[i]);
            }
        }
        lemma_edge_keys_below(t, m);
        let f = s.last();
        assert(f == s[s.len() - 1]);
        assert(f.0 < m && f.1 < m && f.2 < m);
        lemma_edge_key_value(f.0, f.1);
        lemma_edge_key_value(f.1, f.2);
        lemma_edge_key_value(f.0, f.2);
        assert(edge_keys(s) == edge_keys(t).union(face_keys(f)));
        assert forall|k: u64| #[trigger] edge_keys(s).contains(k) implies k < m * 0x1_0000_0000 by {
            if !edge_keys(t).contains(k) {
                assert(face_keys(f).contains(k));
            }
        }
    }
}

proof fn lemma_edge_keys_above(s: Seq<Face>, m: int)
    requires
        forall|i: int| 0 <= i < s.len() ==> face_reaches(#[trigger] s[i], m),
        0 <= m,
    ensures
        forall|k: u64| #[trigger] edge_keys(s).contains(k) ==> k >= m * 0x1_0000_0000,
    decreases s.len(),
{
    if s.len() > 0 {
        let t = s.drop_last();
        assert forall|i: int| 0 <= i < t.len() implies face_reaches(#[trigger] t[i], m) by {
            assert(t[i] == s[i]);
        }
        lemma_edge_keys_above(t, m);
        let f = s.last();
        assert(face_reaches(s[s.len() - 1], m));
        lemma_edge_key_value(f.0, f.1);
        lemma_edge_key_value(f.1, f.2);
        lemma_edge_key_value(f.0, f.2);
        assert(edge_keys(s) == edge_keys(t).union(face_keys(f)));
        assert forall|k: u64| #[trigger] edge_keys(s).contains(k) implies k >= m * 0x1_0000_0000 by {
            if !edge_keys(t).contains(k) {
                assert(face_keys(f).contains(k));
            }
        }
    }
}

/// When the cache gives every edge of `s` a midpoint at `m` or above, every
/// child face reaches `m`.
proof fn lemma_children_reach(s: Seq<Face>, c: Map<u64, u32>, m: int)
    requires
        forall|i: int|
            0 <= i < s.len() ==> {
                &&& midpoint_in(c, (#[trigger] s[i]).0, s[i].1) >= m
                &&& midpoint_in(c, s[i].0, s[i].2) >= m
                &&& midpoint_in(c, s[i].1, s[i].2) >= m
            },
    ensures
        forall|j: int|
            0 <= j < children_all(s, c).len() ==> face_reaches(#[trigger] children_all(s, c)[j], m),
    decreases s.len(),
{
    if s.len() > 0 {
        let t = s.drop_last();
        assert forall|i: int|
            0 <= i < t.len() implies {
            &&& midpoint_in(c, (#[trigger] t[i]).0, t[i].1) >= m
            &&& midpoint_in(c, t[i].0, t[i].2) >= m
            &&& midpoint_in(c, t[i].1, t[i].2) >= m
        } by {
            assert(t[i] == s[i]);
        }
        lemma_children_reach(t, c, m);
        let f = s.last();
        assert(f == s[s.len() - 1]);
        let a = children_all(t, c);
        let b = children(f, c);
        assert forall|j: int|
            0 <= j < children_all(s, c).len() implies face_reaches(
            #[trigger] children_all(s, c)[j],
            m,
        ) by {
            assert(children_all(s, c) == a + b);
            if j >= a.len() {
                assert(children_all(s, c)[j] == b[j - a.len()]);
            } else {
                assert(children_all(s, c)[j] == a[j]);
            }
        }
    }
}

pub proof fn lemma_pow4_monotone(a: nat, b: nat)
    requires
        a <= b,
    ensures
        1 <= pow4(a) <= pow4(b),
    decreases b,
{
    if b > 0 {
        if a < b {
            lemma_pow4_monotone(a, (b - 1) as nat);
        } else {
            lemma_pow4_monotone((a - 1) as nat, (b - 1) as nat);
        }
    }
}

/// Refining with a cache that holds every entry of `c1` gives the same faces,
/// as long as `c1` already knew every edge that the passes looked up.
proof fn lemma_refine_stable(faces: Seq<Face>, c1: Map<u64, u32>, c2: Map<u64, u32>, k: nat)
    requires
        keeps(c1, c2),
        forall|l: nat| l < k ==> #[trigger] edge_keys(refine(faces, c1, l)).subset_of(c1.dom()),
    ensures
        refine(faces, c1, k) == refine(faces, c2, k),
    decreases k,
{
    if k > 0 {
        let p = (k - 1) as nat;
        lemma_refine_stable(faces, c1, c2, p);
        assert(edge_keys(refine(faces, c1, p)).subset_of(c1.dom()));
        lemma_children_all_stable(refine(faces, c1, p), c1, c2);
    }
}

/// Runs `resolution` subdivision passes over `faces`, sharing one midpoint
/// cache across all of them.
///
/// The result is the faces refined `resolution` times, each pass reading its
/// midpoints from the final cache; the cache only ever gains entries.
pub fn subdivide(
    faces: Vec<Face>,
    base: u32,
    resolution: u8,
    mids: &mut Vec<Edge>,
    cache: &mut HashMap<u64, u32>,
) -> (out: Vec<Face>)
    requires
        base + old(mids)@.len() + faces@.len() * pow4(resolution as nat) <= u32::MAX,
        faces_below(faces@, base + old(mids)@.len()),
        cache_wf(old(cache)@, base as int, old(mids)@),
    ensures
        cache_wf(final(cache)@, base as int, final(mids)@),
        keeps(old(cache)@, final(cache)@),
        final(mids)@.subrange(0, old(mids)@.len() as int) == old(mids)@,
        out@ == refine(faces@, final(cache)@, resolution as nat),
        out@.len() == faces@.len() * pow4(resolution as nat),
        resolution == 0 ==> final(mids)@ == old(mids)@,
        final(cache)@.dom() == old(cache)@.dom().union(
            split_edges(faces@, final(cache)@, resolution as nat),
        ),
        final(mids)@.len() - old(mids)@.len() == final(cache)@.dom().len() - old(
            cache,
        )@.dom().len(),
        old(cache)@.dom() == Set::<u64>::empty() ==> final(mids)@.len() == old(mids)@.len()
            + edge_count(faces@, final(cache)@, resolution as nat),
        faces_below(out@, base + final(mids)@.len()),
{
    let ghost f0 = faces@;
    let ghost n0 = base + old(mids)@.len();
    let mut cur = faces;
    let mut k: u8 = 0;
    let ghost fresh = old(cache)@.dom() == Set::<u64>::empty();
    let ghost mut m: int = 0;
    proof {
        assert(mids@.subrange(0, mids@.len() as int) =~= mids@);
        assert(pow4(0) == 1);
        assert(f0.len() * 1 == f0.len());
    }
    while k < resolution
        invariant
            k <= resolution,
            n0 == base + old(mids)@.len(),
            n0 + f0.len() * pow4(resolution as nat) <= u32::MAX,
            cache_wf(cache@, base as int, mids@),
            keeps(old(cache)@, cache@),
            old(mids)@.len() <= mids@.len(),
            mids@.subrange(0, old(mids)@.len() as int) == old(mids)@,
            k == 0 ==> mids@ == old(mids)@,
            cache@.dom() == old(cache)@.dom().union(split_edges(f0, cache@, k as nat)),
            mids@.len() - old(mids)@.len() == cache@.dom().len() - old(cache)@.dom().len(),
            cur@ == refine(f0, cache@, k as nat),
            forall|l: nat|
                l < k ==> #[trigger] edge_keys(refine(f0, cache@, l)).subset_of(cache@.dom()),
            cur@.len() == f0.len() * pow4(k as nat),
            base + mids@.len() + f0.len() <= n0 + f0.len() * pow4(k as nat),
            fresh == (old(cache)@.dom() == Set::<u64>::empty()),
            fresh ==> {
                &&& 0 <= m <= base + mids@.len()
                &&& forall|q: u64| #[trigger] cache@.contains_key(q) ==> q < m * 0x1_0000_0000
                &&& forall|i: int| 0 <= i < cur@.len() ==> face_reaches(#[trigger] cur@[i], m)
                &&& mids@.len() == old(mids)@.len() + edge_count(f0, cache@, k as nat)
            },
            faces_below(cur@, base + mids@.len()),
        decreases resolution - k,
    {
        let ghost c0 = cache@;
        let ghost m0 = mids@;
        proof {
            let p = pow4(k as nat);
            let q = pow4(resolution as nat);
            let f = f0.len();
            lemma_pow4_monotone((k + 1) as nat, resolution as nat);
            assert(pow4((k + 1) as nat) == 4 * p);
            assert(f * (4 * p) <= f * q) by (nonlinear_arith)
                requires
                    4 * p <= q,
            ;
            assert(f * (4 * p) == 4 * (f * p)) by (nonlinear_arith);
        }
        let ghost n_before = base + mids@.len();
        proof {
            if fresh {
                lemma_edge_keys_above(cur@, m);
                assert(edge_keys(cur@).disjoint(c0.dom()));
            }
        }
        let next = subdivide_pass(&cur, base, mids, cache);
        proof {
            lemma_refine_stable(f0, c0, cache@, k as nat);
            lemma_edge_count_stable(f0, c0, cache@, k as nat);
            if fresh {
                lemma_edge_keys_below(cur@, n_before);
                assert forall|q: u64| #[trigger] cache@.contains_key(q) implies q < n_before
                    * 0x1_0000_0000 by {
                    if !c0.contains_key(q) {
                        assert(edge_keys(cur@).contains(q));
                    }
                }
                assert forall|i: int|
                    0 <= i < cur@.len() implies {
                    &&& midpoint_in(cache@, (#[trigger] cur@[i]).0, cur@[i].1) >= n_before
                    &&& midpoint_in(cache@, cur@[i].0, cur@[i].2) >= n_before
                    &&& midpoint_in(cache@, cur@[i].1, cur@[i].2) >= n_before
                } by {
                    let f = cur@[i];
                    lemma_edge_keys_above(cur@, m);
                    lemma_face_in_edge_keys(cur@, i);
                    let e01 = edge_key(f.0, f.1);
                    let e02 = edge_key(f.0, f.2);
                    let e12 = edge_key(f.1, f.2);
                    assert(face_keys(f).contains(e01) && face_keys(f).contains(e02) && face_keys(
                        f,
                    ).contains(e12));
                    assert(edge_keys(cur@).contains(e01) && edge_keys(cur@).contains(e02)
                        && edge_keys(cur@).contains(e12));
                    assert(!c0.contains_key(e01));
                    assert(!c0.contains_key(e02));
                    assert(!c0.contains_key(e12));
                    assert(cache@.contains_key(e01) && cache@.contains_key(e02)
                        && cache@.contains_key(e12));
                }
                lemma_children_reach(cur@, cache@, n_before);
            }
            lemma_split_edges_stable(f0, c0, cache@, k as nat);
            assert(cache@.dom() =~= old(cache)@.dom().union(split_edges(f0, cache@, (k + 1) as nat)));
            let e = edge_keys(cur@);
            lemma_edge_keys_finite(cur@);
            assert(c0.dom().union(e) =~= c0.dom().union(e.difference(c0.dom())));
            vstd::set_lib::lemma_set_disjoint_lens(c0.dom(), e.difference(c0.dom()));
            assert forall|l: nat| l < k + 1 implies #[trigger] edge_keys(
                refine(f0, cache@, l),
            ).subset_of(cache@.dom()) by {
                if l < k {
                    lemma_refine_stable(f0, c0, cache@, l);
                    assert(edge_keys(refine(f0, c0, l)).subset_of(c0.dom()));
                } else {
                    assert(refine(f0, cache@, l) == cur@);
                }
            }
            assert(keeps(old(cache)@, cache@));
            assert(mids@.subrange(0, old(mids)@.len() as int) =~= old(mids)@) by {
                assert(mids@.subrange(0, m0.len() as int) == m0);
                assert forall|j: int| 0 <= j < old(mids)@.len() implies mids@[j] == old(mids)@[j] by {
                    assert(mids@.subrange(0, m0.len() as int)[j] == m0[j]);
                    assert(m0.subrange(0, old(mids)@.len() as int)[j] == old(mids)@[j]);
                }
            }
            let p = pow4(k as nat);
            let f = f0.len();
            assert(f * pow4((k + 1) as nat) == 4 * (f * p)) by (nonlinear_arith)
                requires
                    pow4((k + 1) as nat) == 4 * p,
            ;
        }
        cur = next;
        k = k + 1;
        proof {
            m = n_before;
        }
    }
    cur
}

} // verus!
