//! Exact ray queries: ray against box (slab method), ray against triangle
//! (Moller-Trumbore) and ray against the octree (nearest hit).
//!
//! A ray is `origin + t * direction` for a rational `t >= 0`. Distances are
//! returned as exact fractions of the direction's length.
use vstd::prelude::*;

use crate::aabb::AABB;
use crate::entities::Triangle;
use crate::octree::{MAX_OCTREE_DEPTH, Octree};
use crate::geometry::{
    V3, Vector3d, lemma_cross_within, lemma_dot_within, v_cross, v_dot, v_sub, wide, wide_cross,
    wide_dot, wide_sub, widen, within,
};

verus! {

/// Largest magnitude of a coordinate that the ray queries accept; it keeps
/// every product of the exact arithmetic inside 128 bits.
pub const COORD_LIMIT: i32 = 0x8_0000;

/// The fraction `num / den`, with `den > 0`.
#[derive(Clone, Copy, Debug, PartialEq, Eq, Structural)]
pub struct Ratio {
    pub num: i64,
    pub den: i64,
}

/// Bound on both parts of the fractions that the queries produce.
pub const RATIO_LIMIT: i64 = 0x7fff_ffff_ffff_ffff;

impl View for Ratio {
    type V = (int, int);

    open spec fn view(&self) -> (int, int) {
        (self.num as int, self.den as int)
    }
}

impl Ratio {
    pub open spec fn wf(&self) -> bool {
        0 < self.den <= RATIO_LIMIT && -RATIO_LIMIT <= self.num <= RATIO_LIMIT
    }
}

/// `a <= b` for fractions with positive denominators.
pub open spec fn frac_le(a: (int, int), b: (int, int)) -> bool {
    a.0 * b.1 <= b.0 * a.1
}

/// `a < b` for fractions with positive denominators.
pub open spec fn frac_lt(a: (int, int), b: (int, int)) -> bool {
    a.0 * b.1 < b.0 * a.1
}

pub open spec fn coord_ok(c: int) -> bool {
    -COORD_LIMIT <= c <= COORD_LIMIT
}

pub open spec fn bounded(v: V3) -> bool {
    coord_ok(v.0) && coord_ok(v.1) && coord_ok(v.2)
}

pub open spec fn box_bounded(b: AABB) -> bool {
    bounded(b.min_coords@) && bounded(b.max_coords@)
}

/// On one axis, the point `o + (n / k) * d` lies in `[lo, hi]`.
pub open spec fn in_slab(o: int, d: int, lo: int, hi: int, n: int, k: int) -> bool {
    lo * k <= o * k + n * d <= hi * k
}

proof fn lemma_le_trans(a: (int, int), b: (int, int), c: (int, int))
    requires
        a.1 > 0,
        b.1 > 0,
        c.1 > 0,
        frac_le(a, b),
        frac_le(b, c),
    ensures
        frac_le(a, c),
{
    assert(a.0 * b.1 * c.1 <= b.0 * a.1 * c.1) by (nonlinear_arith)
        requires
            a.0 * b.1 <= b.0 * a.1,
            c.1 > 0,
    ;
    assert(b.0 * c.1 * a.1 <= c.0 * b.1 * a.1) by (nonlinear_arith)
        requires
            b.0 * c.1 <= c.0 * b.1,
            a.1 > 0,
    ;
    assert(a.0 * c.1 <= c.0 * a.1) by (nonlinear_arith)
        requires
            a.0 * b.1 * c.1 <= b.0 * a.1 * c.1,
            b.0 * c.1 * a.1 <= c.0 * b.1 * a.1,
            b.1 > 0,
    ;
}

fn le(a: &Ratio, b: &Ratio) -> (r: bool)
    requires
        a.wf(),
        b.wf(),
    ensures
        r == frac_le(a@, b@),
{
    proof {
        lemma_product_bound(a.num as int, b.den as int);
        lemma_product_bound(b.num as int, a.den as int);
    }
    let x = a.num as i128 * b.den as i128;
    let y = b.num as i128 * a.den as i128;
    x <= y
}

proof fn lemma_product_bound(a: int, b: int)
    requires
        -RATIO_LIMIT <= a <= RATIO_LIMIT,
        -RATIO_LIMIT <= b <= RATIO_LIMIT,
    ensures
        -0x4000_0000_0000_0000_0000_0000_0000_0000 <= a * b <= 0x4000_0000_0000_0000_0000_0000_0000_0000,
{
    assert(-0x4000_0000_0000_0000_0000_0000_0000_0000 <= a * b <= 0x4000_0000_0000_0000_0000_0000_0000_0000)
        by (nonlinear_arith)
        requires
            -RATIO_LIMIT <= a <= RATIO_LIMIT,
            -RATIO_LIMIT <= b <= RATIO_LIMIT,
    ;
}

fn lt(a: &Ratio, b: &Ratio) -> (r: bool)
    requires
        a.wf(),
        b.wf(),
    ensures
        r == frac_lt(a@, b@),
{
    proof {
        lemma_product_bound(a.num as int, b.den as int);
        lemma_product_bound(b.num as int, a.den as int);
    }
    let x = a.num as i128 * b.den as i128;
    let y = b.num as i128 * a.den as i128;
    x < y
}

/// The set of rational `t` for which a ray lies within some slabs: empty,
/// or bounded below by `enter` (none: unbounded) and above by `exit`.
struct Span {
    empty: bool,
    enter: Option<Ratio>,
    exit: Option<Ratio>,
}

impl Span {
    spec fn wf(&self) -> bool {
        &&& self.enter.is_some() == self.exit.is_some()
        &&& (self.enter matches Some(e) ==> e.wf())
        &&& (self.exit matches Some(e) ==> e.wf())
    }

    spec fn has(&self, n: int, k: int) -> bool {
        &&& !self.empty
        &&& (self.enter matches Some(e) ==> frac_le(e@, (n, k)))
        &&& (self.exit matches Some(e) ==> frac_le((n, k), e@))
    }
}

/// The span of one axis.
fn axis_span(o: i32, d: i32, lo: i32, hi: i32) -> (r: Span)
    requires
        coord_ok(o as int),
        coord_ok(d as int),
        coord_ok(lo as int),
        coord_ok(hi as int),
    ensures
        r.wf(),
        forall|n: int, k: int|
            k > 0 ==> (#[trigger] r.has(n, k) <==> in_slab(o as int, d as int, lo as int, hi as int, n, k)),
        r.exit.is_none() ==> d == 0,
{
    if d == 0 {
        let inside = lo <= o && o <= hi;
        let r = Span { empty: !inside, enter: None, exit: None };
        assert forall|n: int, k: int| k > 0 implies (#[trigger] r.has(n, k) <==> in_slab(
            o as int,
            d as int,
            lo as int,
            hi as int,
            n,
            k,
        )) by {
            assert(n * 0 == 0);
            assert((lo <= o) <==> lo * k <= o * k) by (nonlinear_arith)
                requires
                    k > 0,
            ;
            assert((o <= hi) <==> o * k <= hi * k) by (nonlinear_arith)
                requires
                    k > 0,
            ;
        }
        r
    } else if d > 0 {
        let enter = Ratio { num: lo as i64 - o as i64, den: d as i64 };
        let exit = Ratio { num: hi as i64 - o as i64, den: d as i64 };
        let r = Span { empty: false, enter: Some(enter), exit: Some(exit) };
        assert forall|n: int, k: int| k > 0 implies (#[trigger] r.has(n, k) <==> in_slab(
            o as int,
            d as int,
            lo as int,
            hi as int,
            n,
            k,
        )) by {
            assert((lo - o) * k == lo * k - o * k) by (nonlinear_arith);
            assert((hi - o) * k == hi * k - o * k) by (nonlinear_arith);
        }
        r
    } else {
        let enter = Ratio { num: o as i64 - hi as i64, den: -(d as i64) };
        let exit = Ratio { num: o as i64 - lo as i64, den: -(d as i64) };
        let r = Span { empty: false, enter: Some(enter), exit: Some(exit) };
        assert forall|n: int, k: int| k > 0 implies (#[trigger] r.has(n, k) <==> in_slab(
            o as int,
            d as int,
            lo as int,
            hi as int,
            n,
            k,
        )) by {
            assert((o - hi) * k == o * k - hi * k) by (nonlinear_arith);
            assert((o - lo) * k == o * k - lo * k) by (nonlinear_arith);
            assert(n * (-d) == -(n * d)) by (nonlinear_arith);
        }
        r
    }
}

/// The intersection of two spans.
fn meet(a: Span, b: Span) -> (r: Span)
    requires
        a.wf(),
        b.wf(),
    ensures
        r.wf(),
        forall|n: int, k: int| k > 0 ==> (#[trigger] r.has(n, k) <==> a.has(n, k) && b.has(n, k)),
        r.exit.is_none() ==> a.exit.is_none() && b.exit.is_none(),
{
    let enter = match (a.enter, b.enter) {
        (Some(x), Some(y)) => if le(&x, &y) { Some(y) } else { Some(x) },
        (Some(x), None) => Some(x),
        (None, y) => y,
    };
    let exit = match (a.exit, b.exit) {
        (Some(x), Some(y)) => if le(&x, &y) { Some(x) } else { Some(y) },
        (Some(x), None) => Some(x),
        (None, y) => y,
    };
    let r = Span { empty: a.empty || b.empty, enter, exit };
    assert forall|n: int, k: int| k > 0 implies (#[trigger] r.has(n, k) <==> a.has(n, k) && b.has(n, k)) by {
        if let (Some(x), Some(y)) = (a.enter, b.enter) {
            if frac_le(x@, y@) {
                if frac_le(y@, (n, k)) {
                    lemma_le_trans(x@, y@, (n, k));
                }
            } else {
                if frac_le(x@, (n, k)) {
                    lemma_le_trans(y@, x@, (n, k));
                }
            }
        }
        if let (Some(x), Some(y)) = (a.exit, b.exit) {
            if frac_le(x@, y@) {
                if frac_le((n, k), x@) {
                    lemma_le_trans((n, k), x@, y@);
                }
            } else {
                if frac_le((n, k), y@) {
                    lemma_le_trans((n, k), y@, x@);
                }
            }
        }
    }
    r
}


pub struct Ray {
    pub origin: Vector3d,
    pub direction: Vector3d,
}

/// Where a ray meets a box: the distance `t`, in units of the ray's
/// direction.
#[derive(Clone, Copy, Debug, PartialEq, Eq, Structural)]
pub struct RayAABBIntersectionResult {
    pub t: Ratio,
}

impl Ray {
    pub open spec fn bounded(&self) -> bool {
        bounded(self.origin@) && bounded(self.direction@)
    }

    /// The point `origin + (n / k) * direction` lies in box `b`.
    pub open spec fn at_in_box(&self, b: AABB, n: int, k: int) -> bool {
        &&& k > 0
        &&& in_slab(self.origin.x as int, self.direction.x as int, b.min_coords.x as int, b.max_coords.x as int, n, k)
        &&& in_slab(self.origin.y as int, self.direction.y as int, b.min_coords.y as int, b.max_coords.y as int, n, k)
        &&& in_slab(self.origin.z as int, self.direction.z as int, b.min_coords.z as int, b.max_coords.z as int, n, k)
    }

    /// The ray, from its origin on, passes through box `b`.
    pub open spec fn hits_box(&self, b: AABB) -> bool {
        exists|n: int, k: int| n >= 0 && #[trigger] self.at_in_box(b, n, k)
    }

    /// The line of the ray meets box `b` behind the origin.
    pub open spec fn meets_box_behind(&self, b: AABB) -> bool {
        exists|n: int, k: int| n < 0 && #[trigger] self.at_in_box(b, n, k)
    }

    /// Slab test. Returns the distance at which the ray enters the box, or,
    /// where the box also extends behind the origin (the origin lies inside
    /// it), the distance at which it leaves. A ray with a zero direction
    /// whose origin is in the box gets distance 0.
    pub fn intersect_aabb(&self, aabb: &AABB) -> (r: Option<RayAABBIntersectionResult>)
        requires
            self.bounded(),
            box_bounded(*aabb),
        ensures
            r.is_some() == self.hits_box(*aabb),
            r matches Some(h) ==> h.t.wf() && h.t.num >= 0 && self.at_in_box(
                *aabb,
                h.t.num as int,
                h.t.den as int,
            ),
            r matches Some(h) ==> (!self.meets_box_behind(*aabb) ==> forall|n: int, k: int|
                #[trigger] self.at_in_box(*aabb, n, k) ==> frac_le(h.t@, (n, k))),
            r matches Some(h) ==> (self.meets_box_behind(*aabb) && self.direction@ != (0int, 0int, 0int)
                ==> forall|n: int, k: int| #[trigger] self.at_in_box(*aabb, n, k) ==> frac_le((n, k), h.t@)),
    {
        let sx = axis_span(self.origin.x, self.direction.x, aabb.min_coords.x, aabb.max_coords.x);
        let sy = axis_span(self.origin.y, self.direction.y, aabb.min_coords.y, aabb.max_coords.y);
        let sz = axis_span(self.origin.z, self.direction.z, aabb.min_coords.z, aabb.max_coords.z);
        let sxy = meet(sx, sy);
        let s = meet(sxy, sz);
        assert forall|n: int, k: int| k > 0 implies (#[trigger] s.has(n, k) <==> self.at_in_box(*aabb, n, k)) by {
            assert(s.has(n, k) <==> sxy.has(n, k) && sz.has(n, k));
            assert(sxy.has(n, k) <==> sx.has(n, k) && sy.has(n, k));
        }
        if s.empty {
            assert(!self.hits_box(*aabb)) by {
                if self.hits_box(*aabb) {
                    let (n, k) = choose|n: int, k: int| n >= 0 && #[trigger] self.at_in_box(*aabb, n, k);
                    assert(s.has(n, k));
                }
            }
            return None;
        }
        match (s.enter, s.exit) {
            (Some(en), Some(ex)) => {
                if ex.num < 0 {
                    assert(!self.hits_box(*aabb)) by {
                        if self.hits_box(*aabb) {
                            let (n, k) = choose|n: int, k: int| n >= 0 && #[trigger] self.at_in_box(*aabb, n, k);
                            assert(s.has(n, k));
                            assert(n * ex.den <= ex.num * k);
                            assert(n * ex.den >= 0) by (nonlinear_arith)
                                requires n >= 0, ex.den > 0;
                            assert(ex.num * k < 0) by (nonlinear_arith)
                                requires ex.num < 0, k > 0;
                        }
                    }
                    return None;
                }
                if !le(&en, &ex) {
                    assert(!self.hits_box(*aabb)) by {
                        if self.hits_box(*aabb) {
                            let (n, k) = choose|n: int, k: int| n >= 0 && #[trigger] self.at_in_box(*aabb, n, k);
                            assert(s.has(n, k));
                            lemma_le_trans(en@, (n, k), ex@);
                        }
                    }
                    return None;
                }
                if en.num < 0 {
                    let h = RayAABBIntersectionResult { t: ex };
                    proof {
                        assert(s.has(ex.num as int, ex.den as int));
                        assert(self.at_in_box(*aabb, ex.num as int, ex.den as int));
                        assert(s.has(en.num as int, en.den as int));
                        assert(self.at_in_box(*aabb, en.num as int, en.den as int));
                        assert(self.meets_box_behind(*aabb));
                        assert forall|n: int, k: int| #[trigger] self.at_in_box(*aabb, n, k) implies frac_le((n, k), h.t@) by {
                            assert(s.has(n, k));
                        }
                    }
                    Some(h)
                } else {
                    let h = RayAABBIntersectionResult { t: en };
                    proof {
                        assert(s.has(en.num as int, en.den as int));
                        assert(self.at_in_box(*aabb, en.num as int, en.den as int));
                        assert(!self.meets_box_behind(*aabb)) by {
                            if self.meets_box_behind(*aabb) {
                                let (n, k) = choose|n: int, k: int| n < 0 && #[trigger] self.at_in_box(*aabb, n, k);
                                assert(s.has(n, k));
                                assert(en.num * k <= n * en.den);
                                assert(en.num * k >= 0) by (nonlinear_arith)
                                    requires en.num >= 0, k > 0;
                                assert(n * en.den < 0) by (nonlinear_arith)
                                    requires n < 0, en.den > 0;
                            }
                        }
                        assert forall|n: int, k: int| #[trigger] self.at_in_box(*aabb, n, k) implies frac_le(h.t@, (n, k)) by {
                            assert(s.has(n, k));
                        }
                    }
                    Some(h)
                }
            },
            _ => {
                let h = RayAABBIntersectionResult { t: Ratio { num: 0, den: 1 } };
                proof {
                    assert(s.has(0, 1));
                    assert(self.at_in_box(*aabb, 0, 1));
                    assert(s.has(-1, 1));
                    assert(self.at_in_box(*aabb, -1, 1));
                    assert(self.meets_box_behind(*aabb));
                    assert(s.exit.is_none());
                    assert(sxy.exit.is_none() && sz.exit.is_none());
                    assert(self.direction@ == (0int, 0int, 0int));
                }
                Some(h)
            },
        }
    }
}


/// A point scaled by `k > 0`: `p / k` lies in box `b`.
pub open spec fn box_holds_scaled(b: AABB, p: V3, k: int) -> bool {
    &&& b.min_coords.x * k <= p.0 <= b.max_coords.x * k
    &&& b.min_coords.y * k <= p.1 <= b.max_coords.y * k
    &&& b.min_coords.z * k <= p.2 <= b.max_coords.z * k
}

/// A ray whose origin lies strictly inside a box hits it, and the box also
/// extends behind the origin, so that the distance returned is where the ray
/// leaves the box.
pub proof fn lemma_origin_inside_hits(ray: Ray, b: AABB)
    requires
        b.min_coords.x < ray.origin.x < b.max_coords.x,
        b.min_coords.y < ray.origin.y < b.max_coords.y,
        b.min_coords.z < ray.origin.z < b.max_coords.z,
    ensures
        ray.hits_box(b),
        ray.meets_box_behind(b),
{
    assert(ray.at_in_box(b, 0, 1));
    let d = ray.direction;
    let k = 1 + (if d.x >= 0 { d.x as int } else { -d.x }) + (if d.y >= 0 { d.y as int } else { -d.y }) + (
    if d.z >= 0 { d.z as int } else { -d.z });
    lemma_slab_near_origin(ray.origin.x as int, d.x as int, b.min_coords.x as int, b.max_coords.x as int, k);
    lemma_slab_near_origin(ray.origin.y as int, d.y as int, b.min_coords.y as int, b.max_coords.y as int, k);
    lemma_slab_near_origin(ray.origin.z as int, d.z as int, b.min_coords.z as int, b.max_coords.z as int, k);
    assert(ray.at_in_box(b, -1, k));
}

proof fn lemma_slab_near_origin(o: int, d: int, lo: int, hi: int, k: int)
    requires
        lo < o < hi,
        k > d,
        k > -d,
    ensures
        in_slab(o, d, lo, hi, -1, k),
{
    assert(lo * k <= o * k - d <= hi * k) by (nonlinear_arith)
        requires
            lo + 1 <= o,
            o + 1 <= hi,
            k > d,
            k > -d,
    ;
}

/// A ray pointed away from a box whose every point lies behind the origin
/// (the offset from the origin to the point has a negative dot product with
/// the direction) does not hit it.
pub proof fn lemma_box_behind_misses(ray: Ray, b: AABB)
    requires
        forall|p: V3, k: int|
            k > 0 && #[trigger] box_holds_scaled(b, p, k) ==> v_dot(
                (p.0 - ray.origin.x * k, p.1 - ray.origin.y * k, p.2 - ray.origin.z * k),
                ray.direction@,
            ) < 0,
    ensures
        !ray.hits_box(b),
{
    if ray.hits_box(b) {
        let (n, k) = choose|n: int, k: int| n >= 0 && #[trigger] ray.at_in_box(b, n, k);
        let o = ray.origin@;
        let d = ray.direction@;
        let p: V3 = (o.0 * k + n * d.0, o.1 * k + n * d.1, o.2 * k + n * d.2);
        assert(box_holds_scaled(b, p, k));
        assert(v_dot((p.0 - o.0 * k, p.1 - o.1 * k, p.2 - o.2 * k), d) == n * v_dot(d, d)) by (nonlinear_arith)
            requires
                p == (o.0 * k + n * d.0, o.1 * k + n * d.1, o.2 * k + n * d.2),
        ;
        assert(v_dot(d, d) >= 0) by (nonlinear_arith);
        assert(n * v_dot(d, d) >= 0) by (nonlinear_arith)
            requires
                n >= 0,
                v_dot(d, d) >= 0,
        ;
    }
}


/// Where a ray meets a triangle: the distance `t` and the barycentric
/// weights `u` (of `v2`) and `v` (of `v3`), all over one denominator, and
/// the index of the triangle.
#[derive(Clone, Copy, Debug, PartialEq, Eq, Structural)]
pub struct RayTriangleIntersectionResult {
    pub t: Ratio,
    pub u: Ratio,
    pub v: Ratio,
    pub triangle: usize,
}

pub open spec fn triangle_bounded(tri: Triangle) -> bool {
    bounded(tri.v1@) && bounded(tri.v2@) && bounded(tri.v3@)
}

/// The four scalars of the Moller-Trumbore test: the determinant, and the
/// numerators of `u`, `v` and `t` over it.
pub open spec fn mt_terms(ray: Ray, tri: Triangle) -> (int, int, int, int) {
    let e1 = v_sub(tri.v2@, tri.v1@);
    let e2 = v_sub(tri.v3@, tri.v1@);
    let h = v_cross(ray.direction@, e2);
    let s = v_sub(ray.origin@, tri.v1@);
    let q = v_cross(s, e1);
    (v_dot(e1, h), v_dot(s, h), v_dot(ray.direction@, q), v_dot(e2, q))
}

/// The hit of a ray on a triangle as `(t, u, v, den)` over a positive
/// denominator, if any: the ray is not parallel to the triangle's plane,
/// `u` and `v` are non-negative with `u + v <= 1`, and `t > 0`.
pub open spec fn triangle_hit(ray: Ray, tri: Triangle) -> Option<(int, int, int, int)> {
    let (det, u, v, t) = mt_terms(ray, tri);
    let (dd, uu, vv, tt) = if det > 0 {
        (det, u, v, t)
    } else {
        (-det, -u, -v, -t)
    };
    if det != 0 && 0 <= uu <= dd && vv >= 0 && uu + vv <= dd && tt > 0 {
        Some((tt, uu, vv, dd))
    } else {
        None
    }
}

impl RayTriangleIntersectionResult {
    /// This is the hit of `ray` on `tri`, which has index `index`.
    pub open spec fn is_hit_of(&self, ray: Ray, tri: Triangle, index: int) -> bool {
        &&& self.t.wf() && self.u.wf() && self.v.wf()
        &&& self.u.den == self.t.den && self.v.den == self.t.den
        &&& self.triangle == index
        &&& triangle_hit(ray, tri) == Some(
            (self.t.num as int, self.u.num as int, self.v.num as int, self.t.den as int),
        )
    }
}

impl Ray {
    /// Moller-Trumbore ray-triangle test, in exact arithmetic.
    pub fn intersect_with_triangle(&self, triangle: &Triangle, triangle_index: usize) -> (r: Option<
        RayTriangleIntersectionResult,
    >)
        requires
            self.bounded(),
            triangle_bounded(*triangle),
        ensures
            match r {
                Some(h) => h.is_hit_of(*self, *triangle, triangle_index as int),
                None => triangle_hit(*self, *triangle) is None,
            },
    {
        let e1 = wide_sub(&triangle.v2, &triangle.v1);
        let e2 = wide_sub(&triangle.v3, &triangle.v1);
        let d = widen(&self.direction);
        let s = wide_sub(&self.origin, &triangle.v1);
        proof {
            assert(within(wide(e1), 0x10_0000));
            assert(within(wide(e2), 0x10_0000));
            assert(within(wide(d), 0x8_0000));
            assert(within(wide(s), 0x10_0000));
            lemma_cross_within(wide(d), wide(e2), 0x8_0000, 0x10_0000);
            lemma_cross_within(wide(s), wide(e1), 0x10_0000, 0x10_0000);
        }
        let h = wide_cross(d, e2);
        let q = wide_cross(s, e1);
        proof {
            lemma_dot_within(wide(e1), wide(h), 0x10_0000, 0x100_0000_0000int);
            lemma_dot_within(wide(s), wide(h), 0x10_0000, 0x100_0000_0000int);
            lemma_dot_within(wide(d), wide(q), 0x8_0000, 0x200_0000_0000int);
            lemma_dot_within(wide(e2), wide(q), 0x10_0000, 0x200_0000_0000int);
        }
        let a = wide_dot(e1, h);
        if a == 0 {
            assert(mt_terms(*self, *triangle).0 == a);
            return None;
        }
        let u = wide_dot(s, h);
        let v = wide_dot(d, q);
        let t = wide_dot(e2, q);
        assert(mt_terms(*self, *triangle) == (a as int, u as int, v as int, t as int));
        let (dd, uu, vv, tt) = if a > 0 {
            (a, u, v, t)
        } else {
            (-a, -u, -v, -t)
        };
        if uu < 0 || uu > dd {
            return None;
        }
        if vv < 0 || uu + vv > dd {
            return None;
        }
        if tt <= 0 {
            return None;
        }
        Some(
            RayTriangleIntersectionResult {
                t: Ratio { num: tt as i64, den: dd as i64 },
                u: Ratio { num: uu as i64, den: dd as i64 },
                v: Ratio { num: vv as i64, den: dd as i64 },
                triangle: triangle_index,
            },
        )
    }
}


/// The root box and every triangle of the tree have coordinates within
/// `COORD_LIMIT`.
pub open spec fn octree_bounded(tree: Octree) -> bool {
    &&& box_bounded(tree.octant_box(0))
    &&& forall|s: int| 0 <= s < tree.triangles.len() ==> #[trigger] triangle_bounded(tree.triangles@[s])
}

/// `t` is below the bound `max_t`, where `None` stands for no bound.
pub open spec fn below(t: (int, int), max_t: Option<Ratio>) -> bool {
    max_t matches Some(m) ==> frac_lt(t, m@)
}

/// `r` is a hit no farther than the hit of `ray` on `tri`, if the latter is
/// below `max_t`.
pub open spec fn no_farther_than(
    r: Option<RayTriangleIntersectionResult>,
    ray: Ray,
    tri: Triangle,
    max_t: Option<Ratio>,
) -> bool {
    match triangle_hit(ray, tri) {
        Some(x) => below((x.0, x.3), max_t) ==> match r {
            Some(h) => frac_le(h.t@, (x.0, x.3)),
            None => false,
        },
        None => true,
    }
}

/// The ray hits the triangle below `max_t`.
pub open spec fn hit_below(ray: Ray, tri: Triangle, max_t: Option<Ratio>) -> bool {
    match triangle_hit(ray, tri) {
        Some(x) => below((x.0, x.3), max_t),
        None => false,
    }
}

/// The search from node `n` can reach a triangle that the ray hits below
/// `max_t`: one held at `n`, or, within `fuel` further levels, one reached
/// through a child whose box the ray hits.
pub open spec fn reachable_hit(tree: Octree, ray: Ray, n: int, max_t: Option<Ratio>, fuel: nat) -> bool
    decreases fuel,
{
    (exists|j: int|
        0 <= j < tree.held(n).len() && hit_below(ray, tree.triangles@[#[trigger] tree.held(n)[j] as int], max_t))
        || (fuel > 0 && exists|k: int|
        0 <= k < tree.children(n).len() && ray.hits_box(tree.octant_box(#[trigger] tree.children(n)[k] as int))
            && reachable_hit(tree, ray, tree.children(n)[k] as int, max_t, (fuel - 1) as nat))
}

/// The levels left below node `n`.
pub open spec fn levels_below(tree: Octree, n: int) -> nat {
    (MAX_OCTREE_DEPTH - tree.depth(n)) as nat
}

proof fn lemma_octant_bounded(tree: &Octree, n: int)
    requires
        tree.structure(),
        octree_bounded(*tree),
        0 <= n < tree.octant_count,
    ensures
        box_bounded(tree.octant_box(n)),
{
    assert(tree.node_ok(n));
    assert(tree.node_ok(0));
}

proof fn lemma_lt_le_trans(a: (int, int), b: (int, int), c: (int, int))
    requires
        a.1 > 0,
        b.1 > 0,
        c.1 > 0,
        frac_lt(a, b),
        frac_le(b, c),
    ensures
        frac_le(a, c),
{
    lemma_le_trans(a, b, c);
}

impl Ray {
    /// Nearest-hit search below node `octant_index`, limited to distances
    /// below `max_t` (`None`: no limit). Tests the triangles held at the node,
    /// then visits the children whose boxes the ray hits, nearest box first,
    /// and stops at the first child that yields a hit; the result is the
    /// nearer of that hit and the best hit at the node itself.
    ///
    /// It finds a hit exactly when the search can reach a triangle that the
    /// ray hits (`reachable_hit`). Because a triangle is stored in every box
    /// its bounding box meets, the hit found in a nearer child may lie beyond
    /// that child's box, so the early stop can return a hit farther than the
    /// nearest one; the result is always a real hit, no farther than any hit
    /// on the triangles held at the node.
    pub fn intersect_with_octant(&self, octree: &Octree, octant_index: usize, max_t: Option<Ratio>) -> (r:
        Option<RayTriangleIntersectionResult>)
        requires
            self.bounded(),
            octree.structure(),
            octree_bounded(*octree),
            octant_index < octree.octant_count,
            max_t matches Some(m) ==> m.wf(),
        ensures
            r matches Some(h) ==> {
                &&& h.triangle < octree.triangles.len()
                &&& h.is_hit_of(*self, octree.triangles@[h.triangle as int], h.triangle as int)
                &&& below(h.t@, max_t)
            },
            forall|j: int|
                0 <= j < octree.held(octant_index as int).len() ==> #[trigger] no_farther_than(
                    r,
                    *self,
                    octree.triangles@[octree.held(octant_index as int)[j] as int],
                    max_t,
                ),
            r.is_some() == reachable_hit(
                *octree,
                *self,
                octant_index as int,
                max_t,
                levels_below(*octree, octant_index as int),
            ),
        decreases MAX_OCTREE_DEPTH - octree.depth(octant_index as int),
    {
        let ghost node = octant_index as int;
        proof {
            assert(octree.node_ok(node));
        }
        let held = &octree.octant_triangle_map[octant_index];
        let mut best: Option<RayTriangleIntersectionResult> = None;
        let mut j: usize = 0;
        while j < held.len()
            invariant
                0 <= j <= held@.len(),
                held@ == octree.held(node),
                octree.structure(),
                octree_bounded(*octree),
                octree.node_ok(node),
                self.bounded(),
                max_t matches Some(m) ==> m.wf(),
                best matches Some(h) ==> {
                    &&& h.triangle < octree.triangles.len()
                    &&& h.is_hit_of(*self, octree.triangles@[h.triangle as int], h.triangle as int)
                    &&& below(h.t@, max_t)
                },
                forall|i: int|
                    0 <= i < j ==> #[trigger] no_farther_than(best, *self, octree.triangles@[held@[i] as int], max_t),
                best.is_some() == exists|i: int|
                    0 <= i < j && hit_below(*self, octree.triangles@[#[trigger] held@[i] as int], max_t),
            decreases held@.len() - j,
        {
            let s = held[j];
            let hit = self.intersect_with_triangle(&octree.triangles[s], s);
            let ghost old_best = best;
            if let Some(h) = hit {
                let under = match max_t {
                    Some(m) => lt(&h.t, &m),
                    None => true,
                };
                if under {
                    let better = match best {
                        Some(b) => lt(&h.t, &b.t),
                        None => true,
                    };
                    if better {
                        best = Some(h);
                    }
                }
            }
            proof {
                assert forall|i: int|
                    0 <= i < j + 1 implies #[trigger] no_farther_than(best, *self, octree.triangles@[held@[i] as int], max_t) by {
                    assert(i < j ==> no_farther_than(old_best, *self, octree.triangles@[held@[i] as int], max_t));
                    if let Some(x) = triangle_hit(*self, octree.triangles@[held@[i] as int]) {
                        if below((x.0, x.3), max_t) {
                            if i < j {
                                if let (Some(ob), Some(nb)) = (old_best, best) {
                                    if ob != nb {
                                        lemma_lt_le_trans(nb.t@, ob.t@, (x.0, x.3));
                                    }
                                }
                            }
                        }
                    }
                }
                let tj = octree.triangles@[held@[j as int] as int];
                assert(best.is_some() == (old_best.is_some() || hit_below(*self, tj, max_t)));
                if best.is_some() {
                    if !hit_below(*self, tj, max_t) {
                        let i0 = choose|i: int|
                            0 <= i < j && hit_below(*self, octree.triangles@[#[trigger] held@[i] as int], max_t);
                        assert(0 <= i0 < j + 1 && hit_below(*self, octree.triangles@[held@[i0] as int], max_t));
                    } else {
                        assert(hit_below(*self, octree.triangles@[held@[j as int] as int], max_t));
                    }
                } else {
                    assert forall|i: int| 0 <= i < j + 1 implies !hit_below(
                        *self,
                        octree.triangles@[#[trigger] held@[i] as int],
                        max_t,
                    ) by {}
                }
            }
            j = j + 1;
        }
        let children = &octree.octant_child_map[octant_index];
        let mut candidates: Vec<(Ratio, usize)> = Vec::new();
        let mut k: usize = 0;
        while k < children.len()
            invariant
                0 <= k <= children@.len(),
                children@ == octree.children(node),
                octree.structure(),
                octree_bounded(*octree),
                octree.node_ok(node),
                self.bounded(),
                candidates@.len() > 0 ==> octree.depth(node) < MAX_OCTREE_DEPTH,
                best matches Some(h) ==> {
                    &&& h.triangle < octree.triangles.len()
                    &&& h.is_hit_of(*self, octree.triangles@[h.triangle as int], h.triangle as int)
                    &&& below(h.t@, max_t)
                },
                held@ == octree.held(node),
                node == octant_index,
                forall|i: int|
                    0 <= i < held@.len() ==> #[trigger] no_farther_than(best, *self, octree.triangles@[held@[i] as int], max_t),
                forall|i: int|
                    0 <= i < candidates@.len() ==> {
                        &&& (#[trigger] candidates@[i]).0.wf()
                        &&& candidates@[i].1 < octree.octant_count
                        &&& octree.depth(candidates@[i].1 as int) == octree.depth(node) + 1
                    },
                forall|i: int, l: int|
                    0 <= i < l < candidates@.len() ==> frac_le(
                        (#[trigger] candidates@[i]).0@,
                        (#[trigger] candidates@[l]).0@,
                    ),
                best.is_some() == exists|i: int|
                    0 <= i < held@.len() && hit_below(*self, octree.triangles@[#[trigger] held@[i] as int], max_t),
                forall|i: int|
                    0 <= i < candidates@.len() ==> self.hits_box(octree.octant_box((#[trigger] candidates@[i]).1 as int))
                        && octree.children(node).contains(candidates@[i].1),
                forall|kk: int|
                    0 <= kk < k && self.hits_box(octree.octant_box(#[trigger] children@[kk] as int)) ==> exists|i: int|
                        0 <= i < candidates@.len() && candidates@[i].1 == children@[kk],
            decreases children@.len() - k,
        {
            let c = children[k];
            let ghost cands_before = candidates@;
            proof {
                assert(octree.child_ok(node, k as int));
                assert(octree.node_ok(c as int));
                lemma_octant_bounded(octree, c as int);
            }
            let child_box = &octree.aabbs[octree.octant_aabb_map[c]];
            if let Some(hit) = self.intersect_aabb(child_box) {
                let mut p: usize = 0;
                while p < candidates.len() && le(&candidates[p].0, &hit.t)
                    invariant
                        0 <= p <= candidates@.len(),
                        hit.t.wf(),
                        forall|i: int| 0 <= i < candidates@.len() ==> (#[trigger] candidates@[i]).0.wf(),
                        forall|i: int| 0 <= i < p ==> frac_le((#[trigger] candidates@[i]).0@, hit.t@),
                    decreases candidates@.len() - p,
                {
                    p = p + 1;
                }
                let ghost before = candidates@;
                candidates.insert(p, (hit.t, c));
                proof {
                    assert forall|i: int, l: int| 0 <= i < l < candidates@.len() implies frac_le(
                        (#[trigger] candidates@[i]).0@,
                        (#[trigger] candidates@[l]).0@,
                    ) by {
                        if p < before.len() {
                            assert(!frac_le(before[p as int].0@, hit.t@));
                        }
                        if i < p && l == p {
                        } else if i == p && l > p {
                            lemma_le_trans(hit.t@, before[p as int].0@, before[l - 1].0@);
                        } else if i < p && l > p {
                            assert(frac_le(before[i].0@, before[l - 1].0@));
                        } else if i > p {
                            assert(frac_le(before[i - 1].0@, before[l - 1].0@));
                        }
                    }
                    assert(children@[k as int] == c);
                    assert forall|i: int|
                        0 <= i < candidates@.len() implies self.hits_box(octree.octant_box((#[trigger] candidates@[i]).1 as int))
                            && octree.children(node).contains(candidates@[i].1) by {
                        if i < p {
                            assert(candidates@[i] == before[i]);
                        } else if i > p {
                            assert(candidates@[i] == before[i - 1]);
                        }
                    }
                    assert forall|kk: int|
                        0 <= kk < k + 1 && self.hits_box(octree.octant_box(#[trigger] children@[kk] as int)) implies exists|i: int|
                            0 <= i < candidates@.len() && candidates@[i].1 == children@[kk] by {
                        if kk < k {
                            let i0 = choose|i: int| 0 <= i < before.len() && before[i].1 == children@[kk];
                            if i0 < p {
                                assert(candidates@[i0] == before[i0]);
                            } else {
                                assert(candidates@[i0 + 1] == before[i0]);
                            }
                        } else {
                            assert(candidates@[p as int].1 == children@[kk]);
                        }
                    }
                }
            }
            proof {
                assert(children@[k as int] == c);
            }
            k = k + 1;
        }
        let mut child_hit: Option<RayTriangleIntersectionResult> = None;
        let mut i: usize = 0;
        while i < candidates.len() && child_hit.is_none()
            invariant
                0 <= i <= candidates@.len(),
                octree.structure(),
                octree_bounded(*octree),
                self.bounded(),
                max_t matches Some(m) ==> m.wf(),
                octree.depth(node) < MAX_OCTREE_DEPTH || candidates@.len() == 0,
                best matches Some(h) ==> {
                    &&& h.triangle < octree.triangles.len()
                    &&& h.is_hit_of(*self, octree.triangles@[h.triangle as int], h.triangle as int)
                    &&& below(h.t@, max_t)
                },
                held@ == octree.held(node),
                node == octant_index,
                forall|i: int|
                    0 <= i < held@.len() ==> #[trigger] no_farther_than(best, *self, octree.triangles@[held@[i] as int], max_t),
                forall|i: int|
                    0 <= i < candidates@.len() ==> {
                        &&& (#[trigger] candidates@[i]).0.wf()
                        &&& candidates@[i].1 < octree.octant_count
                        &&& octree.depth(candidates@[i].1 as int) == octree.depth(node) + 1
                    },
                child_hit matches Some(h) ==> {
                    &&& h.triangle < octree.triangles.len()
                    &&& h.is_hit_of(*self, octree.triangles@[h.triangle as int], h.triangle as int)
                    &&& below(h.t@, max_t)
                },
                best.is_some() == exists|i: int|
                    0 <= i < held@.len() && hit_below(*self, octree.triangles@[#[trigger] held@[i] as int], max_t),
                forall|i: int|
                    0 <= i < candidates@.len() ==> self.hits_box(octree.octant_box((#[trigger] candidates@[i]).1 as int))
                        && octree.children(node).contains(candidates@[i].1),
                children@ == octree.children(node),
                forall|kk: int|
                    0 <= kk < children@.len() && self.hits_box(octree.octant_box(#[trigger] children@[kk] as int))
                        ==> exists|i: int| 0 <= i < candidates@.len() && candidates@[i].1 == children@[kk],
                child_hit.is_some() == exists|l: int|
                    0 <= l < i && reachable_hit(
                        *octree,
                        *self,
                        (#[trigger] candidates@[l]).1 as int,
                        max_t,
                        (levels_below(*octree, node) - 1) as nat,
                    ),
            decreases candidates@.len() - i,
        {
            proof {
                assert(octree.node_ok(candidates@[i as int].1 as int));
            }
            let ghost was_none = child_hit.is_none();
            child_hit = self.intersect_with_octant(octree, candidates[i].1, max_t);
            proof {
                let c = candidates@[i as int].1 as int;
                assert(levels_below(*octree, c) == (levels_below(*octree, node) - 1) as nat);
                if child_hit.is_some() {
                    assert(0 <= i < i + 1 && reachable_hit(*octree, *self, candidates@[i as int].1 as int, max_t, (levels_below(*octree, node) - 1) as nat));
                } else {
                    assert forall|l: int| 0 <= l < i + 1 implies !reachable_hit(
                        *octree,
                        *self,
                        (#[trigger] candidates@[l]).1 as int,
                        max_t,
                        (levels_below(*octree, node) - 1) as nat,
                    ) by {}
                }
            }
            i = i + 1;
        }
        proof {
            let lv = levels_below(*octree, node);
            if candidates@.len() > 0 {
                assert(lv > 0);
            }
            if child_hit.is_some() {
                let l = choose|l: int|
                    0 <= l < i && reachable_hit(
                        *octree,
                        *self,
                        (#[trigger] candidates@[l]).1 as int,
                        max_t,
                        (lv - 1) as nat,
                    );
                let c = candidates@[l].1;
                assert(octree.children(node).contains(c));
                let kk = choose|kk: int| 0 <= kk < octree.children(node).len() && octree.children(node)[kk] == c;
                assert(octree.children(node)[kk] == c);
                assert(reachable_hit(*octree, *self, node, max_t, lv));
            } else {
                assert(i == candidates@.len());
                assert(!(lv > 0 && exists|kk: int|
                    0 <= kk < octree.children(node).len() && self.hits_box(octree.octant_box(#[trigger] octree.children(node)[kk] as int))
                        && reachable_hit(*octree, *self, octree.children(node)[kk] as int, max_t, (lv - 1) as nat))) by {
                    if lv > 0 && exists|kk: int|
                        0 <= kk < octree.children(node).len() && self.hits_box(octree.octant_box(#[trigger] octree.children(node)[kk] as int))
                            && reachable_hit(*octree, *self, octree.children(node)[kk] as int, max_t, (lv - 1) as nat) {
                        let kk = choose|kk: int|
                            0 <= kk < octree.children(node).len() && self.hits_box(octree.octant_box(#[trigger] octree.children(node)[kk] as int))
                                && reachable_hit(*octree, *self, octree.children(node)[kk] as int, max_t, (lv - 1) as nat);
                        assert(children@[kk] == octree.children(node)[kk]);
                        let i0 = choose|i: int| 0 <= i < candidates@.len() && candidates@[i].1 == children@[kk];
                        assert(!reachable_hit(*octree, *self, candidates@[i0].1 as int, max_t, (lv - 1) as nat));
                    }
                }
                assert(reachable_hit(*octree, *self, node, max_t, lv) == best.is_some());
            }
        }
        match (child_hit, best) {
            (Some(c), Some(b)) => {
                if lt(&c.t, &b.t) {
                    proof {
                        assert forall|j: int| 0 <= j < octree.held(node).len() implies #[trigger] no_farther_than(
                            Some(c),
                            *self,
                            octree.triangles@[octree.held(node)[j] as int],
                            max_t,
                        ) by {
                            assert(no_farther_than(best, *self, octree.triangles@[octree.held(node)[j] as int], max_t));
                            if let Some(x) = triangle_hit(*self, octree.triangles@[octree.held(node)[j] as int]) {
                                if below((x.0, x.3), max_t) {
                                    lemma_lt_le_trans(c.t@, b.t@, (x.0, x.3));
                                }
                            }
                        }
                    }
                    Some(c)
                } else {
                    Some(b)
                }
            },
            (Some(c), None) => {
                proof {
                    assert forall|j: int| 0 <= j < octree.held(node).len() implies #[trigger] no_farther_than(
                        Some(c),
                        *self,
                        octree.triangles@[octree.held(node)[j] as int],
                        max_t,
                    ) by {
                        assert(no_farther_than(best, *self, octree.triangles@[octree.held(node)[j] as int], max_t));
                    }
                }
                Some(c)
            },
            (None, b) => b,
        }
    }
}


/// The ray from `origin` towards `target`: its direction is `target - origin`,
/// so that `target` lies at distance 1.
pub open spec fn segment_ray(origin: Vector3d, target: Vector3d) -> Ray {
    Ray {
        origin,
        direction: Vector3d {
            x: (target.x - origin.x) as i32,
            y: (target.y - origin.y) as i32,
            z: (target.z - origin.z) as i32,
        },
    }
}

/// The ray hits the triangle at a distance below 1.
pub open spec fn hits_before_one(ray: Ray, tri: Triangle) -> bool {
    hit_below(ray, tri, Some(Ratio { num: 1, den: 1 }))
}

/// Whether the way from `origin` to `target` is clear, for the shadow test
/// of a point light: true when the octree search along the ray from
/// `origin` towards `target` finds no triangle hit before `target`. (Despite
/// the name, `true` means nothing is in between.)
pub fn triangle_exists_between_points(octree: &Octree, origin: &Vector3d, target: &Vector3d) -> (r: bool)
    requires
        octree.structure(),
        octree_bounded(*octree),
        bounded(origin@),
        bounded(v_sub(target@, origin@)),
    ensures
        r == !reachable_hit(
            *octree,
            segment_ray(*origin, *target),
            0,
            Some(Ratio { num: 1, den: 1 }),
            levels_below(*octree, 0),
        ),
        !r ==> exists|s: int|
            0 <= s < octree.triangles.len() && #[trigger] hits_before_one(
                segment_ray(*origin, *target),
                octree.triangles@[s],
            ),
        forall|j: int|
            0 <= j < octree.held(0).len() && #[trigger] hits_before_one(
                segment_ray(*origin, *target),
                octree.triangles@[octree.held(0)[j] as int],
            ) ==> !r,
{
    let ray = Ray {
        origin: *origin,
        direction: Vector3d { x: target.x - origin.x, y: target.y - origin.y, z: target.z - origin.z },
    };
    let hit = ray.intersect_with_octant(octree, 0, Some(Ratio { num: 1, den: 1 }));
    proof {
        assert(ray == segment_ray(*origin, *target));
        assert forall|j: int|
            0 <= j < octree.held(0).len() && #[trigger] hits_before_one(
                segment_ray(*origin, *target),
                octree.triangles@[octree.held(0)[j] as int],
            ) implies hit.is_some() by {
            assert(no_farther_than(hit, ray, octree.triangles@[octree.held(0)[j] as int], Some(Ratio { num: 1, den: 1 })));
        }
        if let Some(h) = hit {
            let s = h.triangle as int;
            assert(hits_before_one(segment_ray(*origin, *target), octree.triangles@[s]));
        }
    }
    hit.is_none()
}

} // verus!
