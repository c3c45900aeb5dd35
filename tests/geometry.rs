use raytrace::aabb::AABB;
use raytrace::entities::Triangle;
use raytrace::geometry::Vector3d;

fn v(x: i32, y: i32, z: i32) -> Vector3d {
    Vector3d { x, y, z }
}

#[test]
fn aabb_intersection_is_symmetric() {
    let boxes = vec![
        AABB::new(0, 10, 0, 10, 0, 10),
        AABB::new(10, 20, 0, 10, 0, 10),
        AABB::new(11, 20, 0, 10, 0, 10),
        AABB::new(-5, 5, -5, 5, -5, 5),
        AABB::new(3, 4, 30, 40, 3, 4),
    ];
    for a in &boxes {
        for b in &boxes {
            assert_eq!(a.intersects(b), b.intersects(a));
        }
    }
    assert!(boxes[0].intersects(&boxes[1]));
    assert!(!boxes[0].intersects(&boxes[2]));
    assert!(boxes[0].intersects(&boxes[3]));
    assert!(!boxes[0].intersects(&boxes[4]));
}

#[test]
fn aabb_from_triangle_contains_vertices() {
    let t = Triangle { v1: v(3, -2, 7), v2: v(-1, 5, 7), v3: v(4, 0, -6) };
    let b = AABB::from_triangle(&t);
    assert_eq!(b, AABB::new(-1, 4, -2, 5, -6, 7));
    for p in [t.v1, t.v2, t.v3] {
        assert!(b.min_coords.x <= p.x && p.x <= b.max_coords.x);
        assert!(b.min_coords.y <= p.y && p.y <= b.max_coords.y);
        assert!(b.min_coords.z <= p.z && p.z <= b.max_coords.z);
    }
}

#[test]
fn vector_dot_is_exact() {
    let a = v(i32::MAX, -3, 4);
    let b = v(i32::MAX, 5, -6);
    assert_eq!(a.dot(&b), (i32::MAX as i128) * (i32::MAX as i128) - 15 - 24);
}

#[test]
fn vector_cross_is_exact() {
    let x = v(1, 0, 0);
    let y = v(0, 1, 0);
    assert_eq!(x.cross(&y), (0, 0, 1));
    assert_eq!(y.cross(&x), (0, 0, -1));
    let big = v(i32::MIN, i32::MAX, 0);
    let other = v(i32::MAX, i32::MIN, 0);
    let m = i32::MIN as i128;
    let p = i32::MAX as i128;
    assert_eq!(big.cross(&other), (0, 0, m * m - p * p));
}
