use raytrace::aabb::AABB;
use raytrace::entities::Triangle;
use raytrace::geometry::Vector3d;
use raytrace::octree::Octree;

const SCALE: f64 = 1024.0;

fn fx(v: f64) -> i32 {
    (v * SCALE).round() as i32
}

fn vec3(x: f64, y: f64, z: f64) -> Vector3d {
    Vector3d { x: fx(x), y: fx(y), z: fx(z) }
}

fn bx(min: (f64, f64, f64), max: (f64, f64, f64)) -> AABB {
    AABB { min_coords: vec3(min.0, min.1, min.2), max_coords: vec3(max.0, max.1, max.2) }
}

fn tri(a: (f64, f64, f64), b: (f64, f64, f64), c: (f64, f64, f64)) -> Triangle {
    Triangle { v1: vec3(a.0, a.1, a.2), v2: vec3(b.0, b.1, b.2), v3: vec3(c.0, c.1, c.2) }
}

fn world() -> Octree {
    Octree::new(fx(-10.0), fx(10.0), fx(-10.0), fx(10.0), fx(-10.0), fx(10.0))
}

#[test]
fn test_assigns_first_triangle_to_root() {
    let mut octree = world();
    let triangle = tri((2.0, 2.0, 2.0), (2.0, 5.0, 2.0), (5.0, 2.0, 2.0));

    octree.push_triangle(triangle);

    assert_eq!(octree.octant_count, 1);
    assert_eq!(octree.triangles, vec![triangle]);
    assert_eq!(octree.octant_triangle_map, vec![vec![0]]);
    assert_eq!(
        octree.aabbs,
        vec![bx((-10.0, -10.0, -10.0), (10.0, 10.0, 10.0)), bx((2.0, 2.0, 2.0), (5.0, 5.0, 2.0))]
    );
    assert_eq!(octree.octant_aabb_map, vec![0]);
    assert_eq!(octree.triangle_aabb_map, vec![1]);
}

#[test]
fn test_pushes_all_triangles_to_leaves_when_multiple_triangles_added() {
    let mut octree = world();
    let triangle1 = tri((5.2, 5.2, 5.2), (5.2, 5.5, 5.2), (5.5, 5.2, 5.2));
    let triangle2 = tri((0.6, 0.6, 0.6), (0.6, 0.8, 0.6), (0.8, 0.6, 0.6));

    octree.push_triangle(triangle1);
    octree.push_triangle(triangle2);

    assert_eq!(octree.octant_count, 17);
    assert_eq!(octree.triangles, vec![triangle1, triangle2]);
    for n in 0..octree.octant_count {
        let expected: Vec<usize> = match n {
            9 => vec![1],
            15 => vec![0],
            _ => vec![],
        };
        assert_eq!(octree.octant_triangle_map[n], expected);
    }
    assert_eq!(
        octree.aabbs,
        vec![
            bx((-10.0, -10.0, -10.0), (10.0, 10.0, 10.0)),
            bx((5.2, 5.2, 5.2), (5.5, 5.5, 5.2)),
            bx((0.6, 0.6, 0.6), (0.8, 0.8, 0.6)),
            bx((-10.0, -10.0, -10.0), (0.0, 0.0, 0.0)),
            bx((-10.0, -10.0, 0.0), (0.0, 0.0, 10.0)),
            bx((0.0, -10.0, 0.0), (10.0, 0.0, 10.0)),
            bx((0.0, -10.0, -10.0), (10.0, 0.0, 0.0)),
            bx((-10.0, 0.0, -10.0), (0.0, 10.0, 0.0)),
            bx((-10.0, 0.0, 0.0), (0.0, 10.0, 10.0)),
            bx((0.0, 0.0, 0.0), (10.0, 10.0, 10.0)),
            bx((0.0, 0.0, -10.0), (10.0, 10.0, 0.0)),
            bx((0.0, 0.0, 0.0), (5.0, 5.0, 5.0)),
            bx((0.0, 0.0, 5.0), (5.0, 5.0, 10.0)),
            bx((5.0, 0.0, 5.0), (10.0, 5.0, 10.0)),
            bx((5.0, 0.0, 0.0), (10.0, 5.0, 5.0)),
            bx((0.0, 5.0, 0.0), (5.0, 10.0, 5.0)),
            bx((0.0, 5.0, 5.0), (5.0, 10.0, 10.0)),
            bx((5.0, 5.0, 5.0), (10.0, 10.0, 10.0)),
            bx((5.0, 5.0, 0.0), (10.0, 10.0, 5.0)),
        ]
    );
    assert_eq!(
        octree.octant_aabb_map,
        vec![0, 3, 4, 5, 6, 7, 8, 9, 10, 11, 12, 13, 14, 15, 16, 17, 18]
    );
    assert_eq!(octree.triangle_aabb_map, vec![1, 2]);
}

#[test]
fn single_triangle_stays_in_root_leaf() {
    let mut octree = world();
    octree.push_triangle(tri((-1.0, -1.0, 0.0), (1.0, -1.0, 0.0), (0.0, 1.0, 0.0)));
    assert_eq!(octree.octant_count, 1);
    assert!(octree.octant_child_map[0].is_empty());
    assert_eq!(octree.octant_triangle_map[0], vec![0]);
}

#[test]
fn two_disjoint_triangles_split_root_once() {
    let mut octree = world();
    octree.push_triangle(tri((-6.0, -6.0, -6.0), (-5.0, -6.0, -6.0), (-6.0, -5.0, -6.0)));
    octree.push_triangle(tri((5.0, 5.0, 5.0), (6.0, 5.0, 5.0), (5.0, 6.0, 5.0)));
    assert_eq!(octree.octant_count, 9);
    assert_eq!(octree.octant_child_map[0], vec![1, 2, 3, 4, 5, 6, 7, 8]);
    assert!(octree.octant_triangle_map[0].is_empty());
    let holders_of = |s: usize| -> Vec<usize> {
        (0..octree.octant_count).filter(|n| octree.octant_triangle_map[*n].contains(&s)).collect()
    };
    assert_eq!(holders_of(0), vec![1]);
    assert_eq!(holders_of(1), vec![7]);
}

#[test]
fn every_inserted_triangle_reaches_a_leaf() {
    let mut octree = world();
    let triangles = vec![
        tri((1.0, 1.0, 1.0), (2.0, 1.0, 1.0), (1.0, 2.0, 1.0)),
        tri((1.5, 1.5, 1.5), (2.5, 1.5, 1.5), (1.5, 2.5, 1.5)),
        tri((-3.0, 4.0, 2.0), (-2.0, 4.0, 2.0), (-3.0, 5.0, 2.0)),
        tri((-1.0, -1.0, 0.0), (1.0, -1.0, 0.0), (0.0, 1.0, 0.0)),
        tri((7.0, -7.0, 7.0), (8.0, -7.0, 7.0), (7.0, -6.0, 7.0)),
    ];
    for t in &triangles {
        octree.push_triangle(*t);
    }
    for s in 0..triangles.len() {
        let own = AABB::from_triangle(&triangles[s]);
        let found = (0..octree.octant_count).any(|n| {
            octree.octant_child_map[n].is_empty()
                && octree.octant_triangle_map[n].contains(&s)
                && octree.aabbs[octree.octant_aabb_map[n]].intersects(&own)
        });
        assert!(found, "triangle {} is not held by any leaf", s);
    }
}

#[test]
fn coincident_triangles_stop_splitting_at_depth_cap() {
    let mut octree = world();
    let t = tri((1.0, 1.0, 1.0), (2.0, 1.0, 1.0), (1.0, 2.0, 1.0));
    octree.push_triangle(t);
    octree.push_triangle(t);
    let deepest = octree.octant_depth.iter().copied().max().unwrap();
    assert_eq!(deepest, raytrace::octree::MAX_OCTREE_DEPTH);
    let buckets: Vec<usize> = (0..octree.octant_count)
        .filter(|n| octree.octant_triangle_map[*n].len() == 2)
        .collect();
    assert!(!buckets.is_empty());
}

#[test]
fn every_node_links_to_its_parent() {
    let mut octree = world();
    octree.push_triangle(tri((5.2, 5.2, 5.2), (5.2, 5.5, 5.2), (5.5, 5.2, 5.2)));
    octree.push_triangle(tri((0.6, 0.6, 0.6), (0.6, 0.8, 0.6), (0.8, 0.6, 0.6)));
    let mut expected = vec![0usize];
    expected.extend([0usize; 8]);
    expected.extend([7usize; 8]);
    assert_eq!(octree.octant_parent, expected);
    for n in 1..octree.octant_count {
        assert!(octree.octant_child_map[octree.octant_parent[n]].contains(&n));
    }
}
