use std::collections::{HashMap, HashSet};

use polymesh::blur::{Opts, DEFAULT_RADIUS};
use polymesh::faces::find_faces;
use polymesh::geometry::{orientation_of, squared_distance, Point};
use polymesh::golden::Golden;
use polymesh::graph::{edge_length, neighbors};
use polymesh::mesh::{flatten, Icosahedron, Icosphere};
use polymesh::seed::seed_points;
use polymesh::subdivide::{edge_key_of, subdivide, subdivide_pass, Edge, Face};

const PHI: f64 = 1.618_033_988_749_895;

fn golden_value(x: &Golden) -> f64 {
    x.a as f64 + x.b as f64 * PHI
}

fn unit(p: [f64; 3]) -> [f64; 3] {
    let n = (p[0] * p[0] + p[1] * p[1] + p[2] * p[2]).sqrt();
    [p[0] / n, p[1] / n, p[2] / n]
}

fn position(p: &Point) -> [f64; 3] {
    unit([golden_value(&p.x), golden_value(&p.y), golden_value(&p.z)])
}

/// Positions of all vertices: the corners, then each midpoint on the great
/// circle through the ends of its edge.
fn positions(points: &[Point], midpoints: &[Edge]) -> Vec<[f64; 3]> {
    let mut out: Vec<[f64; 3]> = points.iter().map(position).collect();
    for &(a, b) in midpoints {
        let p = out[a as usize];
        let q = out[b as usize];
        out.push(unit([p[0] + q[0], p[1] + q[1], p[2] + q[2]]));
    }
    out
}

fn distance(p: [f64; 3], q: [f64; 3]) -> f64 {
    ((p[0] - q[0]).powi(2) + (p[1] - q[1]).powi(2) + (p[2] - q[2]).powi(2)).sqrt()
}

fn sub(p: [f64; 3], q: [f64; 3]) -> [f64; 3] {
    [p[0] - q[0], p[1] - q[1], p[2] - q[2]]
}

fn cross(p: [f64; 3], q: [f64; 3]) -> [f64; 3] {
    [p[1] * q[2] - p[2] * q[1], p[2] * q[0] - p[0] * q[2], p[0] * q[1] - p[1] * q[0]]
}

fn dot(p: [f64; 3], q: [f64; 3]) -> f64 {
    p[0] * q[0] + p[1] * q[1] + p[2] * q[2]
}

fn all_outward(pos: &[[f64; 3]], indices: &[u32]) -> bool {
    indices.chunks(3).all(|f| {
        let (a, b, c) = (pos[f[0] as usize], pos[f[1] as usize], pos[f[2] as usize]);
        let centroid = [(a[0] + b[0] + c[0]) / 3.0, (a[1] + b[1] + c[1]) / 3.0, (a[2] + b[2] + c[2]) / 3.0];
        dot(cross(sub(b, a), sub(c, a)), centroid) > 0.0
    })
}

fn sorted_triples(indices: &[u32]) -> HashSet<[u32; 3]> {
    indices
        .chunks(3)
        .map(|f| {
            let mut t = [f[0], f[1], f[2]];
            t.sort();
            t
        })
        .collect()
}

fn unique_edges(faces: &[Face]) -> usize {
    let mut edges = HashSet::new();
    for &(a, b, c) in faces {
        for (x, y) in [(a, b), (b, c), (a, c)] {
            edges.insert((x.min(y), x.max(y)));
        }
    }
    edges.len()
}

fn base_faces() -> Vec<Face> {
    let points = seed_points();
    let nbrs = neighbors(&points);
    find_faces(&points, &nbrs)
}

#[test]
fn test_icosahedron() {
    let icosahedron = Icosahedron::new();
    assert_eq!(icosahedron.points.len(), 12);
    assert_eq!(icosahedron.indices.len(), 20 * 3);

    // all faces are equilateral and of one size
    let pos = positions(&icosahedron.points, &[]);
    let side_lens: Vec<f64> = icosahedron
        .indices
        .chunks(3)
        .flat_map(|f| {
            let (a, b, c) = (pos[f[0] as usize], pos[f[1] as usize], pos[f[2] as usize]);
            [distance(a, b), distance(a, c), distance(b, c)]
        })
        .collect();
    for s in side_lens.iter() {
        assert!((s - side_lens[0]).abs() < 1e-4);
    }
}

#[test]
fn test_icosphere_2() {
    let resolution = 2;
    let icosphere = Icosphere::new(resolution);
    let n_vertices = icosphere.points.len() + icosphere.midpoints.len();
    assert_eq!(n_vertices, 10 * 2usize.pow(resolution as u32).pow(2) + 2);
    assert_eq!(icosphere.indices.len(), 20 * 2usize.pow(resolution as u32).pow(2) * 3);

    // all vertices are on the unit sphere
    for v in positions(&icosphere.points, &icosphere.midpoints) {
        let mag_sq = v[0].powi(2) + v[1].powi(2) + v[2].powi(2);
        assert!((1.0 - mag_sq).abs() < 1e-4);
    }
}

#[test]
fn icosphere_counts_follow_powers_of_four() {
    for r in 0u8..=4 {
        let s = Icosphere::new(r);
        let four_r = 4usize.pow(r as u32);
        assert_eq!(s.points.len() + s.midpoints.len(), 10 * four_r + 2);
        assert_eq!(s.indices.len(), 60 * four_r);
    }
}

#[test]
fn icosphere_resolution_two_concrete_counts() {
    let s = Icosphere::new(2);
    assert_eq!(s.points.len() + s.midpoints.len(), 162);
    assert_eq!(s.indices.len(), 960);
}

#[test]
fn corners_lie_on_one_sphere() {
    for p in seed_points() {
        let sq = p.x.mul(p.x).add(p.y.mul(p.y)).add(p.z.mul(p.z));
        assert_eq!(sq, Golden::new(2, 1));
        let u = position(&p);
        assert!((dot(u, u) - 1.0).abs() < 1e-4);
    }
}

#[test]
fn icosahedron_faces_are_equilateral_exactly() {
    let h = Icosahedron::new();
    let d0 = squared_distance(h.points[h.indices[0] as usize], h.points[h.indices[1] as usize]);
    assert_eq!(d0, Golden::new(4, 0));
    for f in h.indices.chunks(3) {
        let (a, b, c) = (h.points[f[0] as usize], h.points[f[1] as usize], h.points[f[2] as usize]);
        assert_eq!(squared_distance(a, b), d0);
        assert_eq!(squared_distance(b, c), d0);
        assert_eq!(squared_distance(a, c), d0);
    }
}

#[test]
fn icosahedron_faces_wind_outwards() {
    let h = Icosahedron::new();
    for f in h.indices.chunks(3) {
        let o = orientation_of(h.points[f[0] as usize], h.points[f[1] as usize], h.points[f[2] as usize]);
        assert!(o.is_positive());
    }
    assert!(all_outward(&positions(&h.points, &[]), &h.indices));
}

#[test]
fn icosphere_faces_wind_outwards_at_every_level() {
    for r in 0u8..=3 {
        let s = Icosphere::new(r);
        assert!(all_outward(&positions(&s.points, &s.midpoints), &s.indices));
    }
}

#[test]
fn icosahedron_faces_are_distinct_and_each_corner_has_five() {
    let h = Icosahedron::new();
    assert_eq!(sorted_triples(&h.indices).len(), 20);
    let mut count = [0usize; 12];
    for &i in &h.indices {
        count[i as usize] += 1;
    }
    assert!(count.iter().all(|&c| c == 5));
}

#[test]
fn one_pass_adds_one_vertex_per_edge() {
    let faces = base_faces();
    assert_eq!(unique_edges(&faces), 30);
    let mut mids: Vec<Edge> = Vec::new();
    let mut cache: HashMap<u64, u32> = HashMap::new();
    let out = subdivide_pass(&faces, 12, &mut mids, &mut cache);
    assert_eq!(out.len(), 80);
    assert_eq!(mids.len(), 30);
    assert_eq!(cache.len(), 30);
    let mut mids2 = mids.clone();
    let out2 = subdivide_pass(&out, 12, &mut mids2, &mut cache);
    assert_eq!(mids2.len() - mids.len(), unique_edges(&out));
    assert_eq!(unique_edges(&out), 120);
    assert_eq!(out2.len(), 320);
}

#[test]
fn shared_edge_is_split_once() {
    let faces: Vec<Face> = vec![(0, 1, 2), (2, 1, 3)];
    let mut mids: Vec<Edge> = Vec::new();
    let mut cache: HashMap<u64, u32> = HashMap::new();
    let out = subdivide_pass(&faces, 4, &mut mids, &mut cache);
    assert_eq!(mids, vec![(0, 1), (0, 2), (1, 2), (2, 3), (1, 3)]);
    assert_eq!(
        out,
        vec![
            (0, 4, 5),
            (4, 1, 6),
            (5, 6, 2),
            (4, 6, 5),
            (2, 6, 7),
            (6, 1, 8),
            (7, 8, 3),
            (6, 8, 7),
        ]
    );
}

#[test]
fn known_edges_are_not_split_again() {
    let faces: Vec<Face> = vec![(0, 1, 2)];
    let mut mids: Vec<Edge> = Vec::new();
    let mut cache: HashMap<u64, u32> = HashMap::new();
    subdivide_pass(&faces, 3, &mut mids, &mut cache);
    let again = subdivide_pass(&faces, 3, &mut mids, &mut cache);
    assert_eq!(mids.len(), 3);
    assert_eq!(again, vec![(0, 3, 4), (3, 1, 5), (4, 5, 2), (3, 5, 4)]);
}

#[test]
fn subdivide_zero_passes_keeps_faces() {
    let faces: Vec<Face> = vec![(0, 1, 2)];
    let mut mids: Vec<Edge> = Vec::new();
    let mut cache: HashMap<u64, u32> = HashMap::new();
    let out = subdivide(faces.clone(), 3, 0, &mut mids, &mut cache);
    assert_eq!(out, faces);
    assert!(mids.is_empty());
    let out = subdivide(faces, 3, 2, &mut mids, &mut cache);
    assert_eq!(out.len(), 16);
    assert_eq!(mids.len(), 12);
}

#[test]
fn resolution_zero_is_the_icosahedron() {
    let s = Icosphere::new(0);
    let h = Icosahedron::new();
    assert!(s.midpoints.is_empty());
    assert_eq!(s.points, h.points);
    assert_eq!(s.indices.len(), h.indices.len());
    assert_eq!(sorted_triples(&s.indices), sorted_triples(&h.indices));
}

#[test]
fn edge_keys_ignore_direction() {
    assert_eq!(edge_key_of(3, 7), edge_key_of(7, 3));
    assert_eq!(edge_key_of(3, 7), (7u64 << 32) + 3);
    assert_ne!(edge_key_of(3, 7), edge_key_of(3, 8));
    assert_eq!(edge_key_of(u32::MAX, u32::MAX), u64::MAX);
}

#[test]
fn golden_arithmetic() {
    let phi = Golden::new(0, 1);
    assert_eq!(phi.mul(phi), Golden::new(1, 1));
    assert_eq!(Golden::new(2, 3).mul(Golden::new(-1, 4)), Golden::new(10, 17));
    assert_eq!(phi.add(Golden::new(1, 0)), Golden::new(1, 1));
    assert_eq!(phi.sub(Golden::new(1, 0)), Golden::new(-1, 1));
    assert_eq!(phi.neg(), Golden::new(0, -1));
    assert!(phi.is_positive());
    assert!(!Golden::new(0, 0).is_positive());
    // 2 - φ > 0, 1 - φ < 0, -3 + 2φ > 0, 5 - 3φ > 0, 8 - 5φ < 0
    assert!(Golden::new(2, -1).is_positive());
    assert!(!Golden::new(1, -1).is_positive());
    assert!(Golden::new(-3, 2).is_positive());
    assert!(Golden::new(5, -3).is_positive());
    assert!(!Golden::new(8, -5).is_positive());
    assert!(Golden::new(1, 0).le(phi));
    assert!(!phi.le(Golden::new(1, 0)));
    assert!(phi.le(phi));
}

#[test]
fn golden_values_match_floats() {
    let xs = [(3, -2), (-7, 4), (13, -8), (0, 0), (-1, 1), (21, -13)];
    for &(a, b) in &xs {
        let g = Golden::new(a, b);
        assert_eq!(g.is_positive(), golden_value(&g) > 0.0);
    }
}

#[test]
fn edge_length_is_the_smallest_distance() {
    let points = seed_points();
    assert_eq!(edge_length(&points), Some(Golden::new(4, 0)));
    assert_eq!(edge_length(&points[..1].to_vec()), None);
    assert_eq!(edge_length(&Vec::new()), None);
}

#[test]
fn each_corner_has_five_neighbours() {
    let points = seed_points();
    let nbrs = neighbors(&points);
    assert_eq!(nbrs.len(), 12);
    for (i, l) in nbrs.iter().enumerate() {
        assert_eq!(l.len(), 5);
        assert!(l.windows(2).all(|w| w[0] < w[1]));
        assert!(!l.contains(&i));
        for &j in l {
            assert!(nbrs[j].contains(&i));
        }
    }
    assert_eq!(nbrs[0], vec![1, 5, 7, 10, 11]);
}

#[test]
fn seed_corners_in_order() {
    let p = seed_points();
    let g = |a: i64, b: i64| Golden::new(a, b);
    assert_eq!(p[0], Point::new(g(0, -1), g(1, 0), g(0, 0)));
    assert_eq!(p[3], Point::new(g(0, 1), g(-1, 0), g(0, 0)));
    assert_eq!(p[4], Point::new(g(1, 0), g(0, 0), g(0, 1)));
    assert_eq!(p[7], Point::new(g(-1, 0), g(0, 0), g(0, -1)));
    assert_eq!(p[8], Point::new(g(0, 0), g(0, -1), g(1, 0)));
    assert_eq!(p[11], Point::new(g(0, 0), g(0, 1), g(-1, 0)));
}

#[test]
fn point_operations() {
    let g = |a: i64, b: i64| Golden::new(a, b);
    let x = Point::new(g(1, 0), g(0, 0), g(0, 0));
    let y = Point::new(g(0, 0), g(1, 0), g(0, 0));
    assert_eq!(x.cross(y), Point::new(g(0, 0), g(0, 0), g(1, 0)));
    assert_eq!(x.dot(y), g(0, 0));
    assert_eq!(x.sub(y), Point::new(g(1, 0), g(-1, 0), g(0, 0)));
    assert_eq!(squared_distance(x, y), g(2, 0));
    let z = Point::new(g(0, 0), g(0, 0), g(1, 0));
    assert_eq!(orientation_of(x, y, z), g(1, 0));
    assert_eq!(orientation_of(x, z, y), g(-1, 0));
}

#[test]
fn flatten_lists_three_indices_per_face() {
    assert_eq!(flatten(&vec![(1, 2, 3), (4, 5, 6)]), vec![1, 2, 3, 4, 5, 6]);
    assert!(flatten(&Vec::new()).is_empty());
}

#[test]
fn find_faces_without_neighbours_finds_nothing() {
    let points = seed_points();
    let nbrs: Vec<Vec<usize>> = vec![Vec::new(); 12];
    assert!(find_faces(&points, &nbrs).is_empty());
}

#[test]
fn blur_options() {
    let o = Opts::new("in.png".to_string(), "out.png".to_string());
    assert_eq!(o.radius, DEFAULT_RADIUS);
    assert_eq!(o.radius, 3);
    let o = o.with_radius(7);
    assert_eq!(o.in_path, "in.png");
    assert_eq!(o.out_path, "out.png");
    assert_eq!(o.radius, 7);
}
