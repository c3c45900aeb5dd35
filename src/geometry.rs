//! Fixed-point vectors and the integer vector algebra used by the queries.
use vstd::prelude::*;

verus! {

/// A point or direction in scene space. Coordinates are fixed-point
/// integers: the scene chooses the scale, the algebra is exact.
#[derive(Clone, Copy, Debug, PartialEq, Eq, Structural)]
pub struct Vector3d {
    pub x: i32,
    pub y: i32,
    pub z: i32,
}

/// A mathematical integer triple.
pub type V3 = (int, int, int);

pub open spec fn v_sub(a: V3, b: V3) -> V3 {
    (a.0 - b.0, a.1 - b.1, a.2 - b.2)
}

pub open spec fn v_dot(a: V3, b: V3) -> int {
    a.0 * b.0 + a.1 * b.1 + a.2 * b.2
}

pub open spec fn v_cross(a: V3, b: V3) -> V3 {
    (a.1 * b.2 - a.2 * b.1, a.2 * b.0 - a.0 * b.2, a.0 * b.1 - a.1 * b.0)
}

impl View for Vector3d {
    type V = V3;

    open spec fn view(&self) -> V3 {
        (self.x as int, self.y as int, self.z as int)
    }
}

impl Vector3d {
    /// Dot product, exact.
    pub fn dot(&self, other: &Self) -> (r: i128)
        ensures
            r == v_dot(self@, other@),
    {
        let ax = self.x as i128;
        let ay = self.y as i128;
        let az = self.z as i128;
        let bx = other.x as i128;
        let by = other.y as i128;
        let bz = other.z as i128;
        assert(-0x4000_0000_0000_0000 <= ax * bx <= 0x4000_0000_0000_0000) by (nonlinear_arith)
            requires -0x8000_0000 <= ax <= 0x8000_0000, -0x8000_0000 <= bx <= 0x8000_0000;
        assert(-0x4000_0000_0000_0000 <= ay * by <= 0x4000_0000_0000_0000) by (nonlinear_arith)
            requires -0x8000_0000 <= ay <= 0x8000_0000, -0x8000_0000 <= by <= 0x8000_0000;
        assert(-0x4000_0000_0000_0000 <= az * bz <= 0x4000_0000_0000_0000) by (nonlinear_arith)
            requires -0x8000_0000 <= az <= 0x8000_0000, -0x8000_0000 <= bz <= 0x8000_0000;
        ax * bx + ay * by + az * bz
    }

    /// Cross product, exact.
    pub fn cross(&self, other: &Self) -> (r: Wide3)
        ensures
            wide(r) == v_cross(self@, other@),
    {
        let (ax, ay, az) = (self.x as i128, self.y as i128, self.z as i128);
        let (bx, by, bz) = (other.x as i128, other.y as i128, other.z as i128);
        proof {
            lemma_mul_within(ax as int, by as int, 0x8000_0000, 0x8000_0000);
            lemma_mul_within(ax as int, bz as int, 0x8000_0000, 0x8000_0000);
            lemma_mul_within(ay as int, bx as int, 0x8000_0000, 0x8000_0000);
            lemma_mul_within(ay as int, bz as int, 0x8000_0000, 0x8000_0000);
            lemma_mul_within(az as int, bx as int, 0x8000_0000, 0x8000_0000);
            lemma_mul_within(az as int, by as int, 0x8000_0000, 0x8000_0000);
        }
        (ay * bz - az * by, az * bx - ax * bz, ax * by - ay * bx)
    }
}


/// A vector of wide integers, for intermediate results of exact products.
pub type Wide3 = (i128, i128, i128);

pub open spec fn wide(v: Wide3) -> V3 {
    (v.0 as int, v.1 as int, v.2 as int)
}

/// Every coordinate has magnitude at most `k`.
pub open spec fn within(v: V3, k: int) -> bool {
    -k <= v.0 <= k && -k <= v.1 <= k && -k <= v.2 <= k
}

pub proof fn lemma_mul_within(a: int, b: int, ka: int, kb: int)
    requires
        -ka <= a <= ka,
        -kb <= b <= kb,
    ensures
        -(ka * kb) <= a * b <= ka * kb,
{
    assert(-(ka * kb) <= a * b <= ka * kb) by (nonlinear_arith)
        requires
            -ka <= a <= ka,
            -kb <= b <= kb,
    ;
}

pub proof fn lemma_cross_within(a: V3, b: V3, ka: int, kb: int)
    requires
        within(a, ka),
        within(b, kb),
    ensures
        within(v_cross(a, b), 2 * (ka * kb)),
{
    lemma_mul_within(a.0, b.1, ka, kb);
    lemma_mul_within(a.0, b.2, ka, kb);
    lemma_mul_within(a.1, b.0, ka, kb);
    lemma_mul_within(a.1, b.2, ka, kb);
    lemma_mul_within(a.2, b.0, ka, kb);
    lemma_mul_within(a.2, b.1, ka, kb);
}

pub proof fn lemma_dot_within(a: V3, b: V3, ka: int, kb: int)
    requires
        within(a, ka),
        within(b, kb),
    ensures
        -3 * (ka * kb) <= v_dot(a, b) <= 3 * (ka * kb),
{
    lemma_mul_within(a.0, b.0, ka, kb);
    lemma_mul_within(a.1, b.1, ka, kb);
    lemma_mul_within(a.2, b.2, ka, kb);
}

/// `a - b`, exact.
pub fn wide_sub(a: &Vector3d, b: &Vector3d) -> (r: Wide3)
    ensures
        wide(r) == v_sub(a@, b@),
{
    (a.x as i128 - b.x as i128, a.y as i128 - b.y as i128, a.z as i128 - b.z as i128)
}

/// The vector with wide coordinates.
pub fn widen(a: &Vector3d) -> (r: Wide3)
    ensures
        wide(r) == a@,
{
    (a.x as i128, a.y as i128, a.z as i128)
}

/// Cross product, exact.
pub fn wide_cross(a: Wide3, b: Wide3) -> (r: Wide3)
    requires
        within(wide(a), 0x100_0000),
        within(wide(b), 0x100_0000),
    ensures
        wide(r) == v_cross(wide(a), wide(b)),
{
    proof {
        lemma_cross_within(wide(a), wide(b), 0x100_0000, 0x100_0000);
        lemma_mul_within(a.0 as int, b.1 as int, 0x100_0000, 0x100_0000);
        lemma_mul_within(a.0 as int, b.2 as int, 0x100_0000, 0x100_0000);
        lemma_mul_within(a.1 as int, b.0 as int, 0x100_0000, 0x100_0000);
        lemma_mul_within(a.1 as int, b.2 as int, 0x100_0000, 0x100_0000);
        lemma_mul_within(a.2 as int, b.0 as int, 0x100_0000, 0x100_0000);
        lemma_mul_within(a.2 as int, b.1 as int, 0x100_0000, 0x100_0000);
    }
    (a.1 * b.2 - a.2 * b.1, a.2 * b.0 - a.0 * b.2, a.0 * b.1 - a.1 * b.0)
}

/// Dot product, exact.
pub fn wide_dot(a: Wide3, b: Wide3) -> (r: i128)
    requires
        within(wide(a), 0x100_0000),
        within(wide(b), 0x100_0000_0000_0000),
    ensures
        r == v_dot(wide(a), wide(b)),
{
    proof {
        lemma_mul_within(a.0 as int, b.0 as int, 0x100_0000, 0x100_0000_0000_0000);
        lemma_mul_within(a.1 as int, b.1 as int, 0x100_0000, 0x100_0000_0000_0000);
        lemma_mul_within(a.2 as int, b.2 as int, 0x100_0000, 0x100_0000_0000_0000);
    }
    a.0 * b.0 + a.1 * b.1 + a.2 * b.2
}

} // verus!
