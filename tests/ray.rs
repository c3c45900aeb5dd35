use raytrace::aabb::AABB;
use raytrace::entities::Triangle;
use raytrace::geometry::Vector3d;
use raytrace::octree::Octree;
use raytrace::ray::{triangle_exists_between_points, Ratio, Ray};

const S: i32 = 1024;

fn v(x: i32, y: i32, z: i32) -> Vector3d {
    Vector3d { x: x * S, y: y * S, z: z * S }
}

fn value(r: Ratio) -> f64 {
    r.num as f64 / r.den as f64
}

fn cube() -> AABB {
    AABB::new(-10 * S, 10 * S, -10 * S, 10 * S, -10 * S, 10 * S)
}

fn square_at(z: i32) -> Triangle {
    Triangle { v1: v(-3, -3, z), v2: v(30, -3, z), v3: v(-3, 30, z) }
}

#[test]
fn ray_from_inside_box_hits_at_exit() {
    let ray = Ray { origin: v(1, 2, 3), direction: Vector3d { x: 1, y: 0, z: 0 } };
    let hit = ray.intersect_aabb(&cube()).expect("origin inside the box");
    assert!(value(hit.t) >= 0.0);
    assert_eq!(value(hit.t), (9 * S) as f64);
}

#[test]
fn ray_from_outside_box_hits_at_entry() {
    let ray = Ray { origin: v(-20, 0, 0), direction: Vector3d { x: 2, y: 0, z: 0 } };
    let hit = ray.intersect_aabb(&cube()).expect("box ahead");
    assert_eq!(value(hit.t), (5 * S) as f64);
}

#[test]
fn ray_pointing_away_from_box_misses() {
    let ray = Ray { origin: v(20, 0, 0), direction: Vector3d { x: 1, y: 0, z: 0 } };
    assert!(ray.intersect_aabb(&cube()).is_none());
    let diagonal = Ray { origin: v(15, 15, 15), direction: Vector3d { x: 1, y: 1, z: 0 } };
    assert!(diagonal.intersect_aabb(&cube()).is_none());
}

#[test]
fn ray_beside_box_misses() {
    let ray = Ray { origin: v(-20, 11, 0), direction: Vector3d { x: 1, y: 0, z: 0 } };
    assert!(ray.intersect_aabb(&cube()).is_none());
}

#[test]
fn ray_through_centroid_returns_barycentric_third() {
    let t = Triangle { v1: v(0, 0, 10), v2: v(30, 0, 10), v3: v(0, 30, 10) };
    let ray = Ray { origin: v(10, 10, 0), direction: Vector3d { x: 0, y: 0, z: 1 } };
    let hit = ray.intersect_with_triangle(&t, 7).expect("aimed at the centroid");
    assert_eq!(hit.triangle, 7);
    let (tt, u, w) = (value(hit.t), value(hit.u), value(hit.v));
    assert!((tt - (10 * S) as f64).abs() < 1e-9);
    assert!((u - 1.0 / 3.0).abs() < 1e-9);
    assert!((w - 1.0 / 3.0).abs() < 1e-9);
    let px = ray.origin.x as f64 + ray.direction.x as f64 * tt;
    let py = ray.origin.y as f64 + ray.direction.y as f64 * tt;
    let pz = ray.origin.z as f64 + ray.direction.z as f64 * tt;
    assert_eq!((px, py, pz), ((10 * S) as f64, (10 * S) as f64, (10 * S) as f64));
    for x in [u, w, 1.0 - u - w] {
        assert!((0.0..=1.0).contains(&x));
    }
}

#[test]
fn ray_parallel_or_behind_or_outside_triangle_misses() {
    let t = Triangle { v1: v(0, 0, 10), v2: v(30, 0, 10), v3: v(0, 30, 10) };
    let parallel = Ray { origin: v(1, 1, 0), direction: Vector3d { x: 1, y: 0, z: 0 } };
    assert!(parallel.intersect_with_triangle(&t, 0).is_none());
    let behind = Ray { origin: v(1, 1, 20), direction: Vector3d { x: 0, y: 0, z: 1 } };
    assert!(behind.intersect_with_triangle(&t, 0).is_none());
    let outside = Ray { origin: v(20, 20, 0), direction: Vector3d { x: 0, y: 0, z: 1 } };
    assert!(outside.intersect_with_triangle(&t, 0).is_none());
}

#[test]
fn octree_returns_nearest_hit_like_a_linear_scan() {
    let mut octree = Octree::new(-40 * S, 40 * S, -40 * S, 40 * S, -40 * S, 40 * S);
    for z in [15, 5, 25, 10] {
        octree.push_triangle(square_at(z));
    }
    let ray = Ray { origin: v(1, 1, 0), direction: Vector3d { x: 0, y: 0, z: 1 } };
    let hit = ray.intersect_with_octant(&octree, 0, None).expect("triangles ahead");
    let mut best: Option<(f64, usize)> = None;
    for (i, t) in octree.triangles.iter().enumerate() {
        if let Some(h) = ray.intersect_with_triangle(t, i) {
            if best.map_or(true, |(d, _)| value(h.t) < d) {
                best = Some((value(h.t), i));
            }
        }
    }
    assert_eq!(best, Some(((5 * S) as f64, 1)));
    assert_eq!(hit.triangle, 1);
    assert_eq!(value(hit.t), (5 * S) as f64);
}

#[test]
fn octree_query_honours_distance_bound() {
    let mut octree = Octree::new(-40 * S, 40 * S, -40 * S, 40 * S, -40 * S, 40 * S);
    octree.push_triangle(square_at(5));
    let ray = Ray { origin: v(1, 1, 0), direction: Vector3d { x: 0, y: 0, z: S } };
    assert!(ray.intersect_with_octant(&octree, 0, Some(Ratio { num: 4, den: 1 })).is_none());
    let hit = ray.intersect_with_octant(&octree, 0, Some(Ratio { num: 6, den: 1 }));
    assert_eq!(hit.map(|h| value(h.t)), Some(5.0));
}

#[test]
fn octree_query_misses_empty_space() {
    let mut octree = Octree::new(-40 * S, 40 * S, -40 * S, 40 * S, -40 * S, 40 * S);
    octree.push_triangle(square_at(5));
    let ray = Ray { origin: v(1, 1, 0), direction: Vector3d { x: 0, y: 0, z: -1 } };
    assert!(ray.intersect_with_octant(&octree, 0, None).is_none());
}

#[test]
fn occluder_blocks_point_light() {
    let mut octree = Octree::new(-40 * S, 40 * S, -40 * S, 40 * S, -40 * S, 40 * S);
    octree.push_triangle(square_at(5));
    let point = v(1, 1, 0);
    let light_behind = v(1, 1, 10);
    let light_in_front = v(1, 1, 3);
    // True means the way to the light is clear.
    assert!(!triangle_exists_between_points(&octree, &point, &light_behind));
    assert!(triangle_exists_between_points(&octree, &point, &light_in_front));
}
