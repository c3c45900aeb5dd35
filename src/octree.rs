//! An octree over triangles, stored as flat arenas indexed by integers.
//!
//! Node `n` has its box at `aabbs[octant_aabb_map[n]]`, its children in
//! `octant_child_map[n]` (empty for a leaf, else the eight octants of its box),
//! its parent in `octant_parent[n]`
//! and the triangles assigned to it in `octant_triangle_map[n]`. Triangle `s`
//! has its bounding box at `aabbs[triangle_aabb_map[s]]`. Node 0 is the root.
//!
//! A leaf holds at most one triangle until it reaches `MAX_OCTREE_DEPTH`;
//! from there on a leaf keeps every triangle that reaches it in a list.
use vstd::prelude::*;

use crate::aabb::AABB;
use crate::entities::Triangle;
use crate::geometry::Vector3d;

verus! {

/// Depth at which leaves stop subdividing and keep a list of triangles.
pub const MAX_OCTREE_DEPTH: usize = 8;

pub struct Octree {
    pub octant_aabb_map: Vec<usize>,
    pub octant_triangle_map: Vec<Vec<usize>>,
    pub octant_child_map: Vec<Vec<usize>>,
    pub octant_depth: Vec<usize>,
    pub octant_parent: Vec<usize>,
    pub aabbs: Vec<AABB>,
    pub triangles: Vec<Triangle>,
    pub triangle_aabb_map: Vec<usize>,
    pub octant_count: usize,
}

/// The indices of the eight nodes that a split appends to a tree of
/// `count` nodes.
pub open spec fn new_children(count: usize) -> Seq<usize> {
    Seq::new(8, |k: int| (count + k) as usize)
}

/// What octant `k` of box `b` holds after a leaf holding triangle `s` (box
/// `sb`) takes triangle `t` (box `tb`) and splits, where no octant meets
/// both boxes: `t` if its box meets the octant, else `s` if its box does,
/// else nothing.
pub open spec fn split_place(b: AABB, k: int, t: int, tb: AABB, s: int, sb: AABB) -> Seq<usize> {
    if tb.meets(octant_of(b, k)) {
        seq![t as usize]
    } else if sb.meets(octant_of(b, k)) {
        seq![s as usize]
    } else {
        Seq::empty()
    }
}

/// No octant of `b` meets both boxes `p` and `q`.
pub open spec fn separable(b: AABB, p: AABB, q: AABB) -> bool {
    forall|k: int| 0 <= k < 8 ==> !(p.meets(#[trigger] octant_of(b, k)) && q.meets(octant_of(b, k)))
}

/// The midpoint used to bisect `[lo, hi]`.
pub open spec fn split(lo: int, hi: int) -> int {
    lo + (hi - lo) / 2
}

/// Octant `k` takes the upper half of the x axis.
pub open spec fn upper_x(k: int) -> bool {
    k == 2 || k == 3 || k == 6 || k == 7
}

/// Octant `k` takes the upper half of the y axis.
pub open spec fn upper_y(k: int) -> bool {
    k >= 4
}

/// Octant `k` takes the upper half of the z axis.
pub open spec fn upper_z(k: int) -> bool {
    k == 1 || k == 2 || k == 5 || k == 6
}

pub open spec fn half_lo(lo: int, hi: int, upper: bool) -> int {
    if upper { split(lo, hi) } else { lo }
}

pub open spec fn half_hi(lo: int, hi: int, upper: bool) -> int {
    if upper { hi } else { split(lo, hi) }
}

/// Octant `k` of box `b`, in the order bottom-back-left, bottom-front-left,
/// bottom-front-right, bottom-back-right, then the same four on top.
pub open spec fn octant_of(b: AABB, k: int) -> AABB {
    let (lx, hx) = (b.min_coords.x as int, b.max_coords.x as int);
    let (ly, hy) = (b.min_coords.y as int, b.max_coords.y as int);
    let (lz, hz) = (b.min_coords.z as int, b.max_coords.z as int);
    AABB {
        min_coords: Vector3d {
            x: half_lo(lx, hx, upper_x(k)) as i32,
            y: half_lo(ly, hy, upper_y(k)) as i32,
            z: half_lo(lz, hz, upper_z(k)) as i32,
        },
        max_coords: Vector3d {
            x: half_hi(lx, hx, upper_x(k)) as i32,
            y: half_hi(ly, hy, upper_y(k)) as i32,
            z: half_hi(lz, hz, upper_z(k)) as i32,
        },
    }
}

/// The octant that takes the given halves.
pub open spec fn octant_with(ux: bool, uy: bool, uz: bool) -> int {
    if !uy {
        if !ux {
            if !uz { 0 } else { 1 }
        } else {
            if uz { 2 } else { 3 }
        }
    } else {
        if !ux {
            if !uz { 4 } else { 5 }
        } else {
            if uz { 6 } else { 7 }
        }
    }
}

/// The octants of a well-formed box are well formed and lie inside it.
pub proof fn lemma_octant_inside(b: AABB, k: int)
    requires
        b.wf(),
        0 <= k < 8,
    ensures
        octant_of(b, k).wf(),
        b.contains_box(octant_of(b, k)),
{
}

/// Every well-formed box that meets a well-formed box meets one of its
/// eight octants.
pub proof fn lemma_octants_cover(b: AABB, a: AABB)
    requires
        b.wf(),
        a.wf(),
        a.meets(b),
    ensures
        exists|k: int| 0 <= k < 8 && a.meets(#[trigger] octant_of(b, k)),
{
    let ux = a.min_coords.x > split(b.min_coords.x as int, b.max_coords.x as int);
    let uy = a.min_coords.y > split(b.min_coords.y as int, b.max_coords.y as int);
    let uz = a.min_coords.z > split(b.min_coords.z as int, b.max_coords.z as int);
    let k = octant_with(ux, uy, uz);
    assert(upper_x(k) == ux && upper_y(k) == uy && upper_z(k) == uz);
    assert(a.meets(octant_of(b, k)));
}

fn midpoint(lo: i32, hi: i32) -> (r: i32)
    requires
        lo <= hi,
    ensures
        r == split(lo as int, hi as int),
        lo <= r <= hi,
{
    (lo as i64 + (hi as i64 - lo as i64) / 2) as i32
}

/// Octant `k` of `b`.
fn octant_box(b: &AABB, k: usize) -> (r: AABB)
    requires
        b.wf(),
        k < 8,
    ensures
        r == octant_of(*b, k as int),
{
    let mx = midpoint(b.min_coords.x, b.max_coords.x);
    let my = midpoint(b.min_coords.y, b.max_coords.y);
    let mz = midpoint(b.min_coords.z, b.max_coords.z);
    let ux = k == 2 || k == 3 || k == 6 || k == 7;
    let uy = k >= 4;
    let uz = k == 1 || k == 2 || k == 5 || k == 6;
    AABB {
        min_coords: Vector3d {
            x: if ux { mx } else { b.min_coords.x },
            y: if uy { my } else { b.min_coords.y },
            z: if uz { mz } else { b.min_coords.z },
        },
        max_coords: Vector3d {
            x: if ux { b.max_coords.x } else { mx },
            y: if uy { b.max_coords.y } else { my },
            z: if uz { b.max_coords.z } else { mz },
        },
    }
}

impl Octree {
    pub open spec fn octant_box(&self, n: int) -> AABB {
        self.aabbs@[self.octant_aabb_map@[n] as int]
    }

    pub open spec fn triangle_box(&self, s: int) -> AABB {
        self.aabbs@[self.triangle_aabb_map@[s] as int]
    }

    pub open spec fn children(&self, n: int) -> Seq<usize> {
        self.octant_child_map@[n]@
    }

    pub open spec fn held(&self, n: int) -> Seq<usize> {
        self.octant_triangle_map@[n]@
    }

    pub open spec fn parent(&self, n: int) -> int {
        self.octant_parent@[n] as int
    }

    pub open spec fn depth(&self, n: int) -> int {
        self.octant_depth@[n] as int
    }

    pub open spec fn is_leaf(&self, n: int) -> bool {
        self.children(n).len() == 0
    }

    /// Child `k` of node `n` is a node one level deeper whose box is octant
    /// `k` of the box of `n`.
    pub open spec fn child_ok(&self, n: int, k: int) -> bool {
        let c = self.children(n)[k] as int;
        &&& c < self.octant_count
        &&& self.depth(c) == self.depth(n) + 1
        &&& self.octant_box(c) == octant_of(self.octant_box(n), k)
    }

    /// What holds of each node.
    pub open spec fn node_ok(&self, n: int) -> bool {
        &&& self.octant_aabb_map@[n] < self.aabbs.len()
        &&& self.octant_box(n).wf()
        &&& self.octant_box(0).contains_box(self.octant_box(n))
        &&& self.depth(n) <= MAX_OCTREE_DEPTH
        &&& n != 0 ==> self.parent(n) < n && self.octant_box(self.parent(n)).contains_box(self.octant_box(n))
        &&& n != 0 && self.children(self.parent(n)).len() != 0 ==> self.children(self.parent(n)).contains(
            n as usize,
        )
        &&& self.held(n).len() > 1 ==> self.depth(n) == MAX_OCTREE_DEPTH || self.octant_count > usize::MAX - 8
            || self.aabbs.len() > usize::MAX - 8
        &&& forall|j: int|
            0 <= j < self.held(n).len() ==> {
                &&& #[trigger] self.held(n)[j] < self.triangles.len()
                &&& self.triangle_box(self.held(n)[j] as int).meets(self.octant_box(n))
            }
        &&& self.children(n).len() == 0 || {
            &&& self.held(n).len() == 0
            &&& self.children(n).len() == 8
            &&& self.depth(n) < MAX_OCTREE_DEPTH
            &&& forall|k: int| 0 <= k < 8 ==> #[trigger] self.child_ok(n, k)
        }
    }

    /// What holds of each triangle: its box is the one computed from it.
    pub open spec fn triangle_ok(&self, s: int) -> bool {
        &&& self.triangle_aabb_map@[s] < self.aabbs.len()
        &&& self.triangle_box(s) == AABB::of_triangle(self.triangles@[s])
    }

    /// The arenas agree with each other, and every node and triangle is
    /// well formed.
    pub open spec fn structure(&self) -> bool {
        &&& self.octant_count >= 1
        &&& self.octant_aabb_map.len() == self.octant_count
        &&& self.octant_triangle_map.len() == self.octant_count
        &&& self.octant_child_map.len() == self.octant_count
        &&& self.octant_depth.len() == self.octant_count
        &&& self.octant_depth@[0] == 0
        &&& self.octant_parent.len() == self.octant_count
        &&& self.triangle_aabb_map.len() == self.triangles.len()
        &&& forall|n: int| 0 <= n < self.octant_count ==> #[trigger] self.node_ok(n)
        &&& forall|s: int| 0 <= s < self.triangles.len() ==> #[trigger] self.triangle_ok(s)
    }

    /// Leaf `n` holds triangle `s`.
    pub open spec fn leaf_holds(&self, n: int, s: int) -> bool {
        &&& 0 <= n < self.octant_count
        &&& 0 <= s < self.triangles.len()
        &&& self.is_leaf(n)
        &&& self.held(n).contains(s as usize)
    }

    /// Some leaf holds triangle `s`.
    pub open spec fn in_some_leaf(&self, s: int) -> bool {
        exists|n: int| #[trigger] self.leaf_holds(n, s)
    }

    /// No triangle is lost: every stored triangle whose box meets the root
    /// box is held by some leaf.
    pub open spec fn complete(&self) -> bool {
        forall|s: int|
            0 <= s < self.triangles.len() && #[trigger] self.triangle_box(s).meets(self.octant_box(0))
                ==> self.in_some_leaf(s)
    }

    /// The tree is its root plus groups of eight nodes, one per split.
    pub open spec fn count_ok(&self) -> bool {
        (self.octant_count - 1) % 8 == 0
    }

    /// Every node but the root is a child of its parent.
    pub open spec fn linked(&self) -> bool {
        forall|n: int| 0 < n < self.octant_count ==> #[trigger] self.children(self.parent(n)).len() != 0
    }

    /// Node `n` is reached from the root along child links, through nodes
    /// whose boxes all meet `b`.
    pub open spec fn path_meets(&self, n: int, b: AABB) -> bool
        decreases n,
    {
        if n <= 0 || self.parent(n) >= n {
            n == 0 && self.octant_box(0).meets(b)
        } else {
            &&& self.octant_box(n).meets(b)
            &&& self.children(self.parent(n)).contains(n as usize)
            &&& self.path_meets(self.parent(n), b)
        }
    }

    pub open spec fn wf(&self) -> bool {
        self.structure() && self.linked() && self.complete() && self.count_ok()
    }

    /// `self` is `before` with one split more: eight new nodes, the one for
    /// octant `k` of box `b` holding what `split_place` says.
    pub open spec fn split_once(&self, before: &Octree, b: AABB, t: int, tb: AABB, s: int, sb: AABB) -> bool {
        &&& self.octant_count == before.octant_count + 8
        &&& forall|m: int|
            before.octant_count <= m < before.octant_count + 8 ==> (#[trigger] self.held(m)) == split_place(
                b,
                m - before.octant_count,
                t,
                tb,
                s,
                sb,
            )
    }

    /// `self` is `old` where leaf `n` has taken triangle `t`, and nothing
    /// else has changed.
    pub open spec fn takes_into_leaf(&self, old: &Octree, n: int, t: usize) -> bool {
        &&& self.octant_count == old.octant_count
        &&& self.aabbs@ == old.aabbs@
        &&& self.octant_aabb_map@ == old.octant_aabb_map@
        &&& self.octant_child_map@ == old.octant_child_map@
        &&& self.octant_depth@ == old.octant_depth@
        &&& self.octant_parent@ == old.octant_parent@
        &&& self.triangles@ == old.triangles@
        &&& self.triangle_aabb_map@ == old.triangle_aabb_map@
        &&& self.octant_triangle_map@ == old.octant_triangle_map@.update(n, self.octant_triangle_map@[n])
        &&& self.held(n) == old.held(n).push(t)
    }

    /// `self` keeps the boxes, nodes and triangles of `old`: the box arena
    /// and the node maps only grew, and inner nodes keep their children.
    pub open spec fn keeps(&self, old: &Octree) -> bool {
        &&& self.triangles@ == old.triangles@
        &&& self.triangle_aabb_map@ == old.triangle_aabb_map@
        &&& old.octant_count <= self.octant_count
        &&& old.octant_aabb_map.len() == old.octant_count
        &&& old.octant_depth.len() == old.octant_count
        &&& self.octant_aabb_map.len() == self.octant_count
        &&& self.octant_depth.len() == self.octant_count
        &&& old.aabbs.len() <= self.aabbs.len()
        &&& forall|i: int| 0 <= i < old.aabbs.len() ==> #[trigger] self.aabbs@[i] == old.aabbs@[i]
        &&& forall|n: int|
            0 <= n < old.octant_count ==> #[trigger] self.octant_aabb_map@[n]
                == old.octant_aabb_map@[n] && self.octant_depth@[n] == old.octant_depth@[n]
                && self.octant_parent@[n] == old.octant_parent@[n]
        &&& old.octant_parent.len() == old.octant_count
        &&& self.octant_parent.len() == self.octant_count
        &&& forall|n: int|
            0 <= n < old.octant_count && old.children(n).len() != 0 ==> #[trigger] self.children(n)
                == old.children(n)
    }

    /// `self` is `old` with nodes, boxes and triangle placements added: what
    /// `old` had stays where it was, and triangles held by leaves stay held
    /// by leaves.
    pub open spec fn extends(&self, old: &Octree) -> bool {
        &&& self.structure()
        &&& self.linked()
        &&& self.keeps(old)
        &&& forall|s: int| old.in_some_leaf(s) ==> #[trigger] self.in_some_leaf(s)
    }

    /// A tree with only a root, whose box has the given bounds.
    pub fn new(min_x: i32, max_x: i32, min_y: i32, max_y: i32, min_z: i32, max_z: i32) -> (r: Octree)
        requires
            min_x <= max_x,
            min_y <= max_y,
            min_z <= max_z,
        ensures
            r.wf(),
            r.octant_count == 1,
            r.triangles@.len() == 0,
            r.octant_box(0) == AABB::new_spec(min_x, max_x, min_y, max_y, min_z, max_z),
            r.is_leaf(0),
            r.held(0).len() == 0,
            r.aabbs@ == seq![AABB::new_spec(min_x, max_x, min_y, max_y, min_z, max_z)],
            r.octant_aabb_map@ == seq![0usize],
            r.triangle_aabb_map@.len() == 0,
    {
        let aabb = AABB::new(min_x, max_x, min_y, max_y, min_z, max_z);
        let r = Octree {
            octant_aabb_map: vec![0],
            octant_triangle_map: vec![Vec::new()],
            octant_child_map: vec![Vec::new()],
            octant_depth: vec![0],
            octant_parent: vec![0],
            aabbs: vec![aabb],
            triangles: Vec::new(),
            triangle_aabb_map: Vec::new(),
            octant_count: 1,
        };
        assert(r.node_ok(0));
        r
    }
}

/// A node keeps its properties in a tree that keeps the arenas of the old
/// one, where its own children and triangles are unchanged.
proof fn lemma_node_ok_kept(a: &Octree, b: &Octree, n: int)
    requires
        a.structure(),
        0 <= n < a.octant_count,
        b.keeps(a),
        b.octant_triangle_map.len() == b.octant_count,
        b.octant_child_map.len() == b.octant_count,
        b.held(n) == a.held(n),
        b.children(n) == a.children(n),
        n != 0 ==> a.children(a.parent(n)).len() != 0 || b.children(a.parent(n)) == a.children(a.parent(n)),
    ensures
        b.node_ok(n),
{
    assert(a.node_ok(n));
    if n != 0 {
        let p = a.parent(n);
        assert(b.octant_aabb_map@[n] == a.octant_aabb_map@[n]);
        assert(b.parent(n) == p);
        assert(a.node_ok(p));
        assert(b.octant_aabb_map@[p] == a.octant_aabb_map@[p]);
        assert(b.octant_box(p) == a.octant_box(p));
        if a.children(p).len() != 0 {
            assert(b.children(p) == a.children(p));
        }
    }
    assert(a.node_ok(n));
    assert(a.node_ok(0));
    assert(b.octant_box(n) == a.octant_box(n));
    assert(b.octant_box(0) == a.octant_box(0));
    assert forall|j: int| 0 <= j < b.held(n).len() implies {
        &&& #[trigger] b.held(n)[j] < b.triangles.len()
        &&& b.triangle_box(b.held(n)[j] as int).meets(b.octant_box(n))
    } by {
        let s = a.held(n)[j] as int;
        assert(a.triangle_ok(s));
        assert(b.triangle_box(s) == a.triangle_box(s));
    }
    if a.children(n).len() != 0 {
        assert forall|k: int| 0 <= k < 8 implies #[trigger] b.child_ok(n, k) by {
            assert(a.child_ok(n, k));
            let c = a.children(n)[k] as int;
            assert(a.node_ok(c));
            assert(b.octant_box(c) == a.octant_box(c));
        }
    }
}

/// Triangles keep their properties in a tree that keeps the old one.
proof fn lemma_triangles_kept(a: &Octree, b: &Octree)
    requires
        a.structure(),
        b.keeps(a),
    ensures
        forall|s: int| 0 <= s < b.triangles.len() ==> #[trigger] b.triangle_ok(s),
{
    assert forall|s: int| 0 <= s < b.triangles.len() implies #[trigger] b.triangle_ok(s) by {
        assert(a.triangle_ok(s));
    }
}

impl Octree {
    /// Splits leaf `octant_index` into eight new leaves, one per octant of
    /// its box, and returns their indices.
    fn subdivide(&mut self, octant_index: usize) -> (r: Vec<usize>)
        requires
            old(self).structure(),
            octant_index < old(self).octant_count,
            old(self).is_leaf(octant_index as int),
            old(self).held(octant_index as int).len() == 0,
            old(self).linked(),
            old(self).depth(octant_index as int) < MAX_OCTREE_DEPTH,
            old(self).octant_count + 8 <= usize::MAX,
            old(self).aabbs.len() + 8 <= usize::MAX,
        ensures
            final(self).structure(),
            final(self).linked(),
            final(self).keeps(old(self)),
            final(self).octant_count == old(self).octant_count + 8,
            r@.len() == 8,
            forall|k: int| 0 <= k < 8 ==> r@[k] == old(self).octant_count + k,
            final(self).aabbs.len() == old(self).aabbs.len() + 8,
            forall|m: int|
                old(self).octant_count <= m < old(self).octant_count + 8 ==> #[trigger] final(self).octant_aabb_map@[m]
                    == old(self).aabbs.len() + (m - old(self).octant_count),
            forall|k: int|
                0 <= k < 8 ==> #[trigger] final(self).aabbs@[old(self).aabbs.len() + k] == octant_of(
                    old(self).octant_box(octant_index as int),
                    k,
                ),
            final(self).children(octant_index as int) == r@,
            forall|m: int|
                0 <= m < old(self).octant_count && m != octant_index ==> final(self).children(m)
                    == old(self).children(m),
            forall|m: int|
                0 <= m < old(self).octant_count ==> final(self).held(m) == old(self).held(m),
            forall|m: int|
                old(self).octant_count <= m < old(self).octant_count + 8 ==> #[trigger] final(self).is_leaf(m),
            forall|m: int|
                old(self).octant_count <= m < old(self).octant_count + 8 ==> #[trigger] final(self).held(m) =~= Seq::<usize>::empty(),
    {
        let ghost start = *self;
        proof {
            assert(start.node_ok(octant_index as int));
            assert(start.node_ok(0));
        }
        let node_box = self.aabbs[self.octant_aabb_map[octant_index]];
        let child_depth = self.octant_depth[octant_index] + 1;
        let mut child_indices: Vec<usize> = Vec::new();
        let mut children: Vec<usize> = Vec::new();
        let mut k: usize = 0;
        while k < 8
            invariant
                0 <= k <= 8,
                self.structure(),
                self.keeps(&start),
                self.octant_count == start.octant_count + k,
                self.aabbs.len() == start.aabbs.len() + k,
                child_indices@.len() == k,
                children@ == child_indices@,
                forall|i: int| 0 <= i < k ==> child_indices@[i] == start.octant_count + i,
                forall|m: int|
                    start.octant_count <= m < self.octant_count ==> #[trigger] self.octant_aabb_map@[m]
                        == start.aabbs.len() + (m - start.octant_count),
                forall|m: int|
                    0 <= m < start.octant_count ==> self.children(m) == start.children(m)
                        && self.held(m) == start.held(m),
                forall|m: int|
                    start.octant_count <= m < self.octant_count ==> {
                        &&& self.is_leaf(m)
                        &&& self.held(m).len() == 0
                        &&& self.parent(m) == octant_index
                        &&& self.depth(m) == child_depth
                        &&& self.octant_box(m) == octant_of(node_box, m - start.octant_count)
                    },
                start.structure(),
                start.linked(),
                octant_index < start.octant_count,
                start.is_leaf(octant_index as int),
                node_box == start.octant_box(octant_index as int),
                node_box.wf(),
                start.octant_box(0).contains_box(node_box),
                child_depth == start.depth(octant_index as int) + 1,
                child_depth <= MAX_OCTREE_DEPTH,
                start.octant_count + 8 <= usize::MAX,
                start.aabbs.len() + 8 <= usize::MAX,
            decreases 8 - k,
        {
            let ghost prev = *self;
            let b = octant_box(&node_box, k);
            let new_index = self.octant_count;
            self.aabbs.push(b);
            self.octant_aabb_map.push(self.aabbs.len() - 1);
            self.octant_triangle_map.push(Vec::new());
            self.octant_child_map.push(Vec::new());
            self.octant_depth.push(child_depth);
            self.octant_parent.push(octant_index);
            self.octant_count = self.octant_count + 1;
            child_indices.push(new_index);
            children.push(new_index);
            proof {
                lemma_octant_inside(node_box, k as int);
                assert(self.keeps(&prev));
                lemma_keeps_trans(&start, &prev, self);
                assert(self.octant_box(0) == prev.octant_box(0)) by {
                    assert(prev.node_ok(0));
                }
                assert forall|n: int| 0 <= n < self.octant_count implies #[trigger] self.node_ok(n) by {
                    if n < prev.octant_count {
                        assert(prev.node_ok(n));
                        if n != 0 {
                            assert(self.children(prev.parent(n)) == prev.children(prev.parent(n)));
                        }
                        lemma_node_ok_kept(&prev, self, n);
                    } else {
                        assert(self.octant_aabb_map@[n] == prev.aabbs.len());
                        assert(self.octant_box(n) == b);
                        assert(self.held(n).len() == 0);
                        assert(self.children(n).len() == 0);
                        assert(start.node_ok(0));
                        assert(prev.octant_box(0) == start.octant_box(0));
                        assert(self.octant_box(0) == start.octant_box(0));
                        assert(self.octant_box(0).contains_box(b));
                        assert(self.depth(n) == child_depth);
                        assert(self.parent(n) == octant_index);
                        assert(start.node_ok(octant_index as int));
                        assert(self.octant_aabb_map@[octant_index as int] == start.octant_aabb_map@[octant_index as int]);
                        assert(self.octant_box(octant_index as int) == node_box);
                        assert(self.children(octant_index as int) == start.children(octant_index as int));
                    }
                }
                lemma_triangles_kept(&prev, self);
                assert forall|m: int| start.octant_count <= m < self.octant_count implies {
                    &&& self.is_leaf(m)
                    &&& self.held(m).len() == 0
                    &&& self.parent(m) == octant_index
                    &&& self.depth(m) == child_depth
                    &&& self.octant_box(m) == octant_of(node_box, m - start.octant_count)
                } by {
                    if m < prev.octant_count {
                        assert(prev.node_ok(m));
                        assert(prev.is_leaf(m));
                        assert(prev.held(m).len() == 0);
                        assert(prev.depth(m) == child_depth);
                        assert(prev.octant_box(m) == octant_of(node_box, m - start.octant_count));
                        assert(self.depth(m) == prev.depth(m));
                        assert(self.octant_box(m) == prev.octant_box(m));
                        assert(self.children(m) == prev.children(m));
                        assert(self.held(m) == prev.held(m));
                        assert(prev.parent(m) == octant_index);
                        assert(self.parent(m) == prev.parent(m));
                    } else {
                        assert(self.octant_aabb_map@[m] == prev.aabbs.len());
                        assert(self.octant_box(m) == b);
                        assert(self.held(m).len() == 0);
                        assert(self.children(m).len() == 0);
                    }
                }
            }
            k = k + 1;
        }
        let ghost prev = *self;
        self.octant_child_map.set(octant_index, children);
        proof {
            assert(self.keeps(&prev));
            assert forall|n: int| 0 <= n < self.octant_count implies #[trigger] self.node_ok(n) by {
                if n != octant_index {
                    assert(prev.node_ok(n));
                    if n < start.octant_count {
                        if n != 0 {
                            let p = start.parent(n);
                            assert(start.node_ok(n));
                            assert(start.children(p).len() != 0);
                            assert(prev.octant_aabb_map@[n] == start.octant_aabb_map@[n]);
                            assert(prev.parent(n) == p);
                            assert(prev.children(p) == start.children(p));
                        }
                        lemma_node_ok_kept(&prev, self, n);
                    } else {
                        assert(prev.parent(n) == octant_index);
                        assert(self.parent(n) == octant_index);
                        assert(child_indices@[n - start.octant_count] == n);
                        assert(self.children(octant_index as int)[n - start.octant_count] == n);
                        assert(self.children(octant_index as int).contains(n as usize));
                        assert(self.octant_box(n) == prev.octant_box(n));
                        assert(self.octant_box(octant_index as int) == prev.octant_box(octant_index as int));
                        assert(self.children(n) == prev.children(n));
                        assert(self.held(n) == prev.held(n));
                    }
                } else {
                    assert(prev.node_ok(n));
                    assert(self.octant_box(n) == start.octant_box(n));
                    assert forall|k: int| 0 <= k < 8 implies #[trigger] self.child_ok(n, k) by {
                        let c = start.octant_count + k;
                        assert(self.children(n)[k] == c);
                        assert(prev.depth(c) == child_depth);
                        assert(prev.octant_box(c) == octant_of(node_box, k));
                    }
                }
            }
            lemma_triangles_kept(&prev, self);
            assert forall|m: int|
                start.octant_count <= m < self.octant_count implies self.is_leaf(m)
                    && self.held(m).len() == 0 by {
                assert(prev.is_leaf(m));
                assert(self.children(m) == prev.children(m));
            }
            lemma_keeps_trans(&start, &prev, self);
            assert forall|n: int| 0 < n < self.octant_count implies #[trigger] self.children(self.parent(n)).len() != 0 by {
                if n < start.octant_count {
                    let p = start.parent(n);
                    assert(start.node_ok(n));
                    assert(start.children(p).len() != 0);
                    assert(self.octant_aabb_map@[n] == start.octant_aabb_map@[n]);
                    assert(self.parent(n) == p);
                    assert(prev.children(p) == start.children(p));
                } else {
                    assert(prev.parent(n) == octant_index);
                }
            }
            assert forall|m: int|
                start.octant_count <= m < start.octant_count + 8 implies #[trigger] self.octant_aabb_map@[m]
                    == start.aabbs.len() + (m - start.octant_count) by {
                assert(prev.octant_aabb_map@[m] == start.aabbs.len() + (m - start.octant_count));
            }
            assert forall|k: int|
                0 <= k < 8 implies #[trigger] self.aabbs@[start.aabbs.len() + k] == octant_of(
                    start.octant_box(octant_index as int),
                    k,
                ) by {
                let m = start.octant_count + k;
                assert(prev.octant_aabb_map@[m] == start.aabbs.len() + k);
                assert(prev.is_leaf(m));
                assert(prev.octant_box(m) == octant_of(node_box, k));
            }
            assert(start.octant_count == old(self).octant_count);
            assert(self.octant_count == start.octant_count + 8);
            assert forall|m: int|
                old(self).octant_count <= m < old(self).octant_count + 8 implies #[trigger] self.held(m) =~= Seq::<usize>::empty() by {
                assert(self.octant_triangle_map@ == prev.octant_triangle_map@);
                assert(prev.is_leaf(m));
                assert(prev.held(m).len() == 0);
            }
        }
        child_indices
    }
}


/// Boxes and depths of existing nodes, and triangle boxes, stay as they were.
proof fn lemma_boxes_kept(a: &Octree, b: &Octree)
    requires
        a.structure(),
        b.keeps(a),
    ensures
        forall|n: int| 0 <= n < a.octant_count ==> #[trigger] b.octant_box(n) == a.octant_box(n),
        forall|n: int| 0 <= n < a.octant_count ==> #[trigger] b.depth(n) == a.depth(n),
        forall|s: int| 0 <= s < a.triangles.len() ==> #[trigger] b.triangle_box(s) == a.triangle_box(s),
{
    assert forall|n: int| 0 <= n < a.octant_count implies #[trigger] b.octant_box(n) == a.octant_box(n)
        && b.depth(n) == a.depth(n) by {
        assert(a.node_ok(n));
        let i = a.octant_aabb_map@[n] as int;
        assert(b.octant_aabb_map@[n] == a.octant_aabb_map@[n]);
        assert(b.aabbs@[i] == a.aabbs@[i]);
    }
    assert forall|n: int| 0 <= n < a.octant_count implies #[trigger] b.depth(n) == a.depth(n) by {
        assert(b.octant_aabb_map@[n] == a.octant_aabb_map@[n]);
    }
    assert forall|s: int| 0 <= s < a.triangles.len() implies #[trigger] b.triangle_box(s)
        == a.triangle_box(s) by {
        assert(a.triangle_ok(s));
        let i = a.triangle_aabb_map@[s] as int;
        assert(b.aabbs@[i] == a.aabbs@[i]);
    }
}

proof fn lemma_keeps_trans(a: &Octree, b: &Octree, c: &Octree)
    requires
        b.keeps(a),
        c.keeps(b),
    ensures
        c.keeps(a),
{
    assert forall|i: int| 0 <= i < a.aabbs.len() implies #[trigger] c.aabbs@[i] == a.aabbs@[i] by {
        assert(b.aabbs@[i] == a.aabbs@[i]);
    }
    assert forall|n: int| 0 <= n < a.octant_count implies #[trigger] c.octant_aabb_map@[n]
        == a.octant_aabb_map@[n] && c.octant_depth@[n] == a.octant_depth@[n] by {
        assert(b.octant_aabb_map@[n] == a.octant_aabb_map@[n]);
    }
    assert forall|n: int| 0 <= n < a.octant_count && a.children(n).len() != 0 implies #[trigger] c.children(n)
        == a.children(n) by {
        assert(b.children(n) == a.children(n));
    }
}

proof fn lemma_extends_trans(a: &Octree, b: &Octree, c: &Octree)
    requires
        b.extends(a),
        c.extends(b),
    ensures
        c.extends(a),
{
    lemma_keeps_trans(a, b, c);
    assert forall|s: int| a.in_some_leaf(s) implies #[trigger] c.in_some_leaf(s) by {
        assert(b.in_some_leaf(s));
    }
}

proof fn lemma_extends_refl(a: &Octree)
    requires
        a.structure(),
        a.linked(),
    ensures
        a.extends(a),
{
}

impl Octree {
    /// Inserts triangle `triangle_index`, whose box is `aabbs[aabb_index]`,
    /// below node `octant_index`: nothing happens where the boxes do not
    /// meet; an empty leaf takes the triangle; an occupied leaf is split
    /// into its octants and its triangles and the new one go down into them;
    /// an inner node passes the triangle to every child. Leaves at
    /// `MAX_OCTREE_DEPTH` keep a list instead of splitting.
    fn push_at_octant(
        &mut self,
        triangle_index: usize,
        aabb_index: usize,
        octant_index: usize,
        depth: usize,
    )
        requires
            old(self).structure(),
            old(self).linked(),
            depth == old(self).depth(octant_index as int),
            triangle_index < old(self).triangles.len(),
            aabb_index == old(self).triangle_aabb_map@[triangle_index as int],
            octant_index < old(self).octant_count,
        ensures
            final(self).extends(old(self)),
            (final(self).octant_count - old(self).octant_count) % 8 == 0,
            old(self).triangle_box(triangle_index as int).meets(old(self).octant_box(octant_index as int))
                ==> final(self).in_some_leaf(triangle_index as int),
            !old(self).triangle_box(triangle_index as int).meets(old(self).octant_box(octant_index as int))
                ==> *final(self) == *old(self),
            old(self).triangle_box(triangle_index as int).meets(old(self).octant_box(octant_index as int))
                && old(self).is_leaf(octant_index as int) && old(self).held(octant_index as int).len() == 0
                ==> final(self).takes_into_leaf(old(self), octant_index as int, triangle_index),
            old(self).triangle_box(triangle_index as int).meets(old(self).octant_box(octant_index as int))
                && old(self).is_leaf(octant_index as int) && old(self).held(octant_index as int).len() > 0
                && old(self).depth(octant_index as int) < MAX_OCTREE_DEPTH && old(self).octant_count + 8
                <= usize::MAX && old(self).aabbs.len() + 8 <= usize::MAX ==> final(self).children(
                octant_index as int,
            ) == new_children(old(self).octant_count) && final(self).held(octant_index as int).len() == 0,
            old(self).triangle_box(triangle_index as int).meets(old(self).octant_box(octant_index as int))
                && old(self).is_leaf(octant_index as int) && old(self).held(octant_index as int).len() == 1
                && separable(
                old(self).octant_box(octant_index as int),
                old(self).triangle_box(triangle_index as int),
                old(self).triangle_box(old(self).held(octant_index as int)[0] as int),
            ) && old(self).depth(octant_index as int) < MAX_OCTREE_DEPTH && old(self).octant_count + 8
                <= usize::MAX && old(self).aabbs.len() + 8 <= usize::MAX ==> {
                &&& final(self).octant_count == old(self).octant_count + 8
                &&& forall|k: int|
                    0 <= k < 8 ==> final(self).is_leaf(old(self).octant_count + k) && (#[trigger] final(self).held(
                        old(self).octant_count + k,
                    )) == split_place(
                        old(self).octant_box(octant_index as int),
                        k,
                        triangle_index as int,
                        old(self).triangle_box(triangle_index as int),
                        old(self).held(octant_index as int)[0] as int,
                        old(self).triangle_box(old(self).held(octant_index as int)[0] as int),
                    )
            },
        decreases MAX_OCTREE_DEPTH - depth,
    {
        let ghost start = *self;
        let ghost t = triangle_index as int;
        let ghost node = octant_index as int;
        proof {
            assert(start.node_ok(node));
            assert(start.triangle_ok(t));
            lemma_extends_refl(&start);
        }
        let aabb = self.aabbs[aabb_index];
        let node_box = self.aabbs[self.octant_aabb_map[octant_index]];
        if !aabb.intersects(&node_box) {
            return;
        }
        if self.octant_child_map[octant_index].len() == 0 {
            if self.octant_triangle_map[octant_index].len() == 0 || depth >= MAX_OCTREE_DEPTH || self.octant_count > usize::MAX - 8 || self.aabbs.len()
                > usize::MAX - 8 {
                self.octant_triangle_map[octant_index].push(triangle_index);
                proof {
                    assert(self.keeps(&start));
                    assert forall|n: int| 0 <= n < self.octant_count implies #[trigger] self.node_ok(n) by {
                        if n != node {
                            lemma_node_ok_kept(&start, self, n);
                        } else {
                            assert(self.held(n) == start.held(n).push(triangle_index));
                            assert forall|j: int| 0 <= j < self.held(n).len() implies {
                                &&& #[trigger] self.held(n)[j] < self.triangles.len()
                                &&& self.triangle_box(self.held(n)[j] as int).meets(self.octant_box(n))
                            } by {
                                if j < start.held(n).len() {
                                    assert(self.held(n)[j] == start.held(n)[j]);
                                }
                            }
                        }
                    }
                    lemma_triangles_kept(&start, self);
                    assert forall|n: int| 0 < n < self.octant_count implies #[trigger] self.children(self.parent(n)).len() != 0 by {
                        assert(start.children(start.parent(n)).len() != 0);
                    }
                    assert(self.held(node)[start.held(node).len() as int] == triangle_index);
                    assert(self.leaf_holds(node, t));
                    assert forall|s: int| start.in_some_leaf(s) implies #[trigger] self.in_some_leaf(s) by {
                        let n = choose|n: int| #[trigger] start.leaf_holds(n, s);
                        if n == node {
                            let j = choose|j: int| 0 <= j < start.held(n).len() && start.held(n)[j] == s as usize;
                            assert(self.held(n)[j] == s as usize);
                        }
                        assert(self.leaf_holds(n, s));
                    }
                }
            } else {
                let mut olds: Vec<usize> = Vec::new();
                self.octant_triangle_map.set_and_swap(octant_index, &mut olds);
                let ghost taken = *self;
                proof {
                    assert(olds@ == start.held(node));
                    assert(taken.keeps(&start));
                    assert forall|n: int| 0 <= n < taken.octant_count implies #[trigger] taken.node_ok(n) by {
                        if n != node {
                            lemma_node_ok_kept(&start, &taken, n);
                        } else {
                            assert(start.node_ok(n));
                            assert(taken.held(n).len() == 0);
                        }
                    }
                    lemma_triangles_kept(&start, &taken);
                    assert forall|n: int| 0 < n < taken.octant_count implies #[trigger] taken.children(taken.parent(n)).len() != 0 by {
                        assert(start.children(start.parent(n)).len() != 0);
                    }
                }
                let child_indices = self.subdivide(octant_index);
                let ghost mid = *self;
                proof {
                    lemma_keeps_trans(&start, &taken, &mid);
                    lemma_boxes_kept(&start, &mid);
                    assert(mid.node_ok(node));
                    assert forall|k: int|
                        0 <= k < 8 implies #[trigger] child_indices@[k] < mid.octant_count
                            && mid.octant_box(child_indices@[k] as int) == octant_of(node_box, k)
                            && mid.depth(child_indices@[k] as int) == start.depth(node) + 1 by {
                        assert(mid.child_ok(node, k));
                    }
                    assert forall|j: int|
                        0 <= j < olds@.len() implies #[trigger] olds@[j] < start.triangles.len()
                            && start.triangle_box(olds@[j] as int).meets(node_box) by {
                        assert(olds@[j] == start.held(node)[j]);
                    }
                    assert forall|s: int| #[trigger] start.in_some_leaf(s) implies mid.in_some_leaf(s)
                        || olds@.contains(s as usize) by {
                        let n = choose|n: int| #[trigger] start.leaf_holds(n, s);
                        if n != node {
                            assert(mid.children(n) == start.children(n));
                            assert(mid.held(n) == taken.held(n));
                            assert(mid.leaf_holds(n, s));
                        }
                    }
                }
                let ghost sep = start.held(node).len() == 1 && separable(node_box, start.triangle_box(t), start.triangle_box(start.held(node)[0] as int));
                let ghost s0: int = if start.held(node).len() > 0 { start.held(node)[0] as int } else { 0 };
                let ghost base = start.octant_count as int;
                proof {
                    if sep {
                        assert(olds@ =~= seq![s0 as usize]);
                        assert(start.node_ok(node));
                        assert forall|k: int| 0 <= k < 8 implies mid.is_leaf(base + k) && (#[trigger] mid.held(base + k)).len() == 0 by {
                            assert(mid.children(node)[k] == base + k);
                        }
                    }
                }
                let mut ci: usize = 0;
                while ci < 8
                    invariant
                        0 <= ci <= 8,
                        self.extends(&mid),
                        base == start.octant_count,
                        forall|k: int| 0 <= k < 8 ==> #[trigger] child_indices@[k] == base + k,
                        sep ==> olds@ == seq![s0 as usize] && 0 <= s0 < start.triangles.len(),
                        sep ==> separable(node_box, start.triangle_box(t), start.triangle_box(s0)),
                        sep ==> self.octant_count == base + 8,
                        sep ==> forall|k: int| 0 <= k < 8 ==> #[trigger] self.is_leaf(base + k),
                        sep ==> forall|k: int|
                            0 <= k < ci ==> #[trigger] self.held(base + k) == split_place(node_box, k, t, start.triangle_box(t), s0, start.triangle_box(s0)),
                        sep ==> forall|k: int| ci <= k < 8 ==> #[trigger] self.held(base + k).len() == 0,
                        (self.octant_count - start.octant_count) % 8 == 0,
                        mid.structure(),
                        mid.keeps(&start),
                        start.structure(),
                        node == octant_index,
                        t == triangle_index,
                        0 <= node < start.octant_count,
                        0 <= t < start.triangles.len(),
                        aabb_index == start.triangle_aabb_map@[t],
                        node_box == start.octant_box(node),
                        depth == start.depth(node),
                        depth < MAX_OCTREE_DEPTH,
                        child_indices@.len() == 8,
                        forall|k: int|
                            0 <= k < 8 ==> #[trigger] child_indices@[k] < mid.octant_count
                                && mid.octant_box(child_indices@[k] as int) == octant_of(node_box, k)
                                && mid.depth(child_indices@[k] as int) == start.depth(node) + 1,
                        forall|j: int|
                            0 <= j < olds@.len() ==> #[trigger] olds@[j] < start.triangles.len()
                                && start.triangle_box(olds@[j] as int).meets(node_box),
                        forall|s: int|
                            #[trigger] start.in_some_leaf(s) ==> mid.in_some_leaf(s) || olds@.contains(
                                s as usize,
                            ),
                        forall|k: int, j: int|
                            0 <= k < ci && 0 <= j < olds@.len() && start.triangle_box(olds@[j] as int).meets(
                                #[trigger] octant_of(node_box, k),
                            ) ==> self.in_some_leaf(#[trigger] olds@[j] as int),
                        forall|k: int|
                            0 <= k < ci && start.triangle_box(t).meets(#[trigger] octant_of(node_box, k))
                                ==> self.in_some_leaf(t),
                    decreases 8 - ci,
                {
                    let c = child_indices[ci];
                    let ghost before = *self;
                    proof {
                        lemma_boxes_kept(&mid, &before);
                        lemma_boxes_kept(&start, &mid);
                        lemma_keeps_trans(&start, &mid, &before);
                        lemma_boxes_kept(&start, &before);
                    }
                    proof {
                        assert(mid.node_ok(c as int));
                        assert(before.depth(c as int) == start.depth(node) + 1);
                    }
                    self.push_at_octant(triangle_index, aabb_index, c, depth + 1);
                    let ghost meets_t = start.triangle_box(t).meets(octant_of(node_box, ci as int));
                    proof {
                        if sep {
                            assert(c == base + ci);
                            assert(before.is_leaf(base + ci));
                            assert(before.held(base + ci).len() == 0);
                            assert(before.triangle_box(t) == start.triangle_box(t));
                            assert(before.octant_box(c as int) == mid.octant_box(c as int));
                            if meets_t {
                                assert(self.held(c as int) =~= seq![triangle_index]);
                                assert forall|m: int| 0 <= m < self.octant_count && m != c implies #[trigger] self.held(m)
                                    == before.held(m) by {
                                    assert(self.octant_triangle_map@[m] == before.octant_triangle_map@[m]);
                                }
                            }
                            assert forall|k: int| 0 <= k < 8 implies #[trigger] self.is_leaf(base + k) by {
                                assert(before.is_leaf(base + k));
                            }
                        }
                    }
                    let mut j: usize = 0;
                    while j < olds.len()
                        invariant
                            0 <= j <= olds@.len(),
                            self.extends(&before),
                            base == start.octant_count,
                            c == base + ci,
                            meets_t == start.triangle_box(t).meets(octant_of(node_box, ci as int)),
                            sep ==> olds@ == seq![s0 as usize] && 0 <= s0 < start.triangles.len(),
                            sep ==> separable(node_box, start.triangle_box(t), start.triangle_box(s0)),
                            sep ==> self.octant_count == base + 8,
                            sep ==> forall|k: int| 0 <= k < 8 ==> #[trigger] self.is_leaf(base + k),
                            sep ==> forall|k: int|
                                0 <= k < ci ==> #[trigger] self.held(base + k) == split_place(node_box, k, t, start.triangle_box(t), s0, start.triangle_box(s0)),
                            sep ==> forall|k: int| ci < k < 8 ==> #[trigger] self.held(base + k).len() == 0,
                            sep && j == 0 ==> self.held(c as int) == (if meets_t { seq![t as usize] } else { Seq::<usize>::empty() }),
                            sep && j == 1 ==> self.held(c as int) == split_place(node_box, ci as int, t, start.triangle_box(t), s0, start.triangle_box(s0)),
                            (self.octant_count - start.octant_count) % 8 == 0,
                            before.extends(&mid),
                            mid.structure(),
                            mid.keeps(&start),
                            start.structure(),
                            c == child_indices@[ci as int],
                            0 <= ci < 8,
                            c < mid.octant_count,
                            mid.octant_box(c as int) == octant_of(node_box, ci as int),
                            mid.depth(c as int) == start.depth(node) + 1,
                            node_box == start.octant_box(node),
                            depth == start.depth(node),
                            depth < MAX_OCTREE_DEPTH,
                            0 <= node < start.octant_count,
                            forall|j: int|
                                0 <= j < olds@.len() ==> #[trigger] olds@[j] < start.triangles.len()
                                    && start.triangle_box(olds@[j] as int).meets(node_box),
                            forall|k: int, j: int|
                                0 <= k < ci && 0 <= j < olds@.len() && start.triangle_box(olds@[j] as int).meets(
                                    #[trigger] octant_of(node_box, k),
                                ) ==> self.in_some_leaf(#[trigger] olds@[j] as int),
                            forall|i: int|
                                0 <= i < j && start.triangle_box(olds@[i] as int).meets(octant_of(node_box, ci as int))
                                    ==> self.in_some_leaf(#[trigger] olds@[i] as int),
                            forall|k: int|
                                0 <= k <= ci && start.triangle_box(t).meets(#[trigger] octant_of(node_box, k))
                                    ==> self.in_some_leaf(t),
                        decreases olds@.len() - j,
                    {
                        let o = olds[j];
                        let ghost inner = *self;
                        proof {
                            lemma_keeps_trans(&mid, &before, &inner);
                            lemma_keeps_trans(&start, &mid, &inner);
                            lemma_boxes_kept(&mid, &inner);
                            lemma_boxes_kept(&start, &inner);
                            assert(inner.triangle_ok(o as int));
                        }
                        let oa = self.triangle_aabb_map[o];
                        proof {
                            assert(mid.node_ok(c as int));
                            assert(inner.depth(c as int) == start.depth(node) + 1);
                        }
                        self.push_at_octant(o, oa, c, depth + 1);
                        proof {
                            lemma_extends_trans(&before, &inner, self);
                            if sep {
                                assert(j == 0);
                                assert(olds@[0] == seq![s0 as usize][0]);
                                assert(o as int == s0);
                                assert(inner.triangle_box(s0) == start.triangle_box(s0));
                                assert(inner.octant_box(c as int) == mid.octant_box(c as int));
                                assert(inner.is_leaf(c as int));
                                if start.triangle_box(s0).meets(octant_of(node_box, ci as int)) {
                                    assert(!meets_t);
                                    assert(self.held(c as int) =~= seq![o]);
                                    assert forall|m: int| 0 <= m < self.octant_count && m != c implies #[trigger] self.held(m)
                                        == inner.held(m) by {
                                        assert(self.octant_triangle_map@[m] == inner.octant_triangle_map@[m]);
                                    }
                                }
                                assert forall|k: int| 0 <= k < 8 implies #[trigger] self.is_leaf(base + k) by {
                                    assert(inner.is_leaf(base + k));
                                }
                                assert forall|k: int| 0 <= k < ci implies #[trigger] self.held(base + k) == split_place(node_box, k, t, start.triangle_box(t), s0, start.triangle_box(s0)) by {
                                    assert(inner.held(base + k) == split_place(node_box, k, t, start.triangle_box(t), s0, start.triangle_box(s0)));
                                }
                                assert forall|k: int| ci < k < 8 implies #[trigger] self.held(base + k).len() == 0 by {
                                    assert(inner.held(base + k).len() == 0);
                                }
                            }
                        }
                        j = j + 1;
                    }
                    proof {
                        lemma_extends_trans(&mid, &before, self);
                    }
                    ci = ci + 1;
                }
                proof {
                    lemma_keeps_trans(&start, &mid, self);
                    assert(start.triangle_ok(t));
                    if start.triangle_box(t).meets(node_box) {
                        lemma_octants_cover(node_box, start.triangle_box(t));
                    }
                    assert(mid.children(node) =~= new_children(start.octant_count));
                    assert(self.children(node) == mid.children(node));
                    assert(self.node_ok(node));
                    assert forall|s: int| start.in_some_leaf(s) implies #[trigger] self.in_some_leaf(s) by {
                        if !mid.in_some_leaf(s) {
                            let j = choose|j: int| 0 <= j < olds@.len() && olds@[j] == s as usize;
                            assert(olds@[j] < start.triangles.len());
                            assert(start.triangle_ok(olds@[j] as int));
                            lemma_octants_cover(node_box, start.triangle_box(olds@[j] as int));
                            let k = choose|k: int| 0 <= k < 8 && start.triangle_box(olds@[j] as int).meets(#[trigger] octant_of(node_box, k));
                            assert(self.in_some_leaf(olds@[j] as int));
                        }
                    }
                }
            }
        } else {
            let mut children: Vec<usize> = Vec::new();
            let mut k: usize = 0;
            while k < 8
                invariant
                    0 <= k <= 8,
                    *self == start,
                    node == octant_index,
                    start.structure(),
                    start.node_ok(node),
                    0 <= node < start.octant_count,
                    start.children(node).len() == 8,
                    children@ == start.children(node).subrange(0, k as int),
                decreases 8 - k,
            {
                children.push(self.octant_child_map[octant_index][k]);
                k = k + 1;
                assert(children@ =~= start.children(node).subrange(0, k as int));
            }
            let mut ci: usize = 0;
            while ci < 8
                invariant
                    0 <= ci <= 8,
                    self.extends(&start),
                    (self.octant_count - start.octant_count) % 8 == 0,
                    start.structure(),
                    t == triangle_index,
                    node == octant_index,
                    0 <= node < start.octant_count,
                    0 <= t < start.triangles.len(),
                    aabb_index == start.triangle_aabb_map@[t],
                    node_box == start.octant_box(node),
                    depth == start.depth(node),
                    depth < MAX_OCTREE_DEPTH,
                    start.children(node).len() == 8,
                    children@ == start.children(node),
                    forall|k: int|
                        0 <= k < ci && start.triangle_box(t).meets(#[trigger] octant_of(node_box, k))
                            ==> self.in_some_leaf(t),
                decreases 8 - ci,
            {
                let c = children[ci];
                let ghost before = *self;
                proof {
                    assert(start.node_ok(node));
                    assert(start.child_ok(node, ci as int));
                    lemma_boxes_kept(&start, &before);
                    assert(start.node_ok(c as int));
                    assert(before.depth(c as int) == start.depth(node) + 1);
                }
                self.push_at_octant(triangle_index, aabb_index, c, depth + 1);
                proof {
                    lemma_extends_trans(&start, &before, self);
                }
                ci = ci + 1;
            }
            proof {
                assert(start.triangle_ok(t));
                if start.triangle_box(t).meets(node_box) {
                    lemma_octants_cover(node_box, start.triangle_box(t));
                }
            }
        }
    }
}


/// Appending a triangle and its box to the stores keeps the structure and
/// the leaves' holdings.
proof fn lemma_triangle_appended(a: &Octree, b: &Octree, triangle: Triangle)
    requires
        a.structure(),
        b.triangles@ == a.triangles@.push(triangle),
        b.aabbs@ == a.aabbs@.push(AABB::of_triangle(triangle)),
        b.triangle_aabb_map@ == a.triangle_aabb_map@.push(a.aabbs.len()),
        b.octant_aabb_map == a.octant_aabb_map,
        b.octant_triangle_map == a.octant_triangle_map,
        b.octant_child_map == a.octant_child_map,
        b.octant_depth == a.octant_depth,
        b.octant_parent == a.octant_parent,
        b.octant_count == a.octant_count,
    ensures
        b.structure(),
        a.linked() ==> b.linked(),
        forall|n: int| 0 <= n < a.octant_count ==> #[trigger] b.octant_box(n) == a.octant_box(n),
        forall|s: int| 0 <= s < a.triangles.len() ==> #[trigger] b.triangle_box(s) == a.triangle_box(s),
        forall|s: int| a.in_some_leaf(s) ==> #[trigger] b.in_some_leaf(s),
{
    assert forall|n: int| 0 <= n < a.octant_count implies #[trigger] b.octant_box(n) == a.octant_box(n) by {
        assert(a.node_ok(n));
    }
    assert forall|s: int| 0 <= s < a.triangles.len() implies #[trigger] b.triangle_box(s)
        == a.triangle_box(s) by {
        assert(a.triangle_ok(s));
    }
    assert forall|n: int| 0 <= n < b.octant_count implies #[trigger] b.node_ok(n) by {
        assert(a.node_ok(n));
        assert(a.node_ok(0));
        if n != 0 {
            assert(a.node_ok(a.parent(n)));
            assert(b.octant_box(a.parent(n)) == a.octant_box(a.parent(n)));
        }
        assert forall|j: int| 0 <= j < b.held(n).len() implies {
            &&& #[trigger] b.held(n)[j] < b.triangles.len()
            &&& b.triangle_box(b.held(n)[j] as int).meets(b.octant_box(n))
        } by {
            assert(b.triangle_box(a.held(n)[j] as int) == a.triangle_box(a.held(n)[j] as int));
        }
        if a.children(n).len() != 0 {
            assert forall|k: int| 0 <= k < 8 implies #[trigger] b.child_ok(n, k) by {
                assert(a.child_ok(n, k));
                let c = a.children(n)[k] as int;
                assert(b.octant_box(c) == a.octant_box(c));
            }
        }
    }
    assert forall|s: int| 0 <= s < b.triangles.len() implies #[trigger] b.triangle_ok(s) by {
        if s < a.triangles.len() {
            assert(a.triangle_ok(s));
        }
    }
    if a.linked() {
        assert forall|n: int| 0 < n < b.octant_count implies #[trigger] b.children(b.parent(n)).len() != 0 by {
            assert(a.children(a.parent(n)).len() != 0);
        }
    }
    assert forall|s: int| a.in_some_leaf(s) implies #[trigger] b.in_some_leaf(s) by {
        let n = choose|n: int| #[trigger] a.leaf_holds(n, s);
        assert(b.leaf_holds(n, s));
    }
}

impl Octree {
    /// Stores the triangle and its bounding box, then inserts it from the
    /// root.
    pub fn push_triangle(&mut self, triangle: Triangle)
        requires
            old(self).wf(),
        ensures
            final(self).wf(),
            final(self).triangles@ == old(self).triangles@.push(triangle),
            final(self).octant_box(0) == old(self).octant_box(0),
            final(self).triangle_box(old(self).triangles.len() as int) == AABB::of_triangle(triangle),
            final(self).triangle_aabb_map@ == old(self).triangle_aabb_map@.push(old(self).aabbs.len()),
            final(self).aabbs@[old(self).aabbs.len() as int] == AABB::of_triangle(triangle),
            forall|i: int| 0 <= i < old(self).aabbs.len() ==> #[trigger] final(self).aabbs@[i] == old(self).aabbs@[i],
            old(self).octant_count <= final(self).octant_count,
            (final(self).octant_count - old(self).octant_count) % 8 == 0,
            forall|n: int|
                0 <= n < old(self).octant_count ==> #[trigger] final(self).octant_aabb_map@[n]
                    == old(self).octant_aabb_map@[n],
            forall|n: int|
                0 <= n < old(self).octant_count && old(self).children(n).len() != 0 ==> #[trigger] final(self).children(n) == old(self).children(n),
            !AABB::of_triangle(triangle).meets(old(self).octant_box(0)) ==> {
                &&& final(self).octant_count == old(self).octant_count
                &&& final(self).octant_aabb_map@ == old(self).octant_aabb_map@
                &&& final(self).octant_child_map@ == old(self).octant_child_map@
                &&& final(self).octant_triangle_map@ == old(self).octant_triangle_map@
            },
            AABB::of_triangle(triangle).meets(old(self).octant_box(0)) && old(self).is_leaf(0) && old(self).held(0).len() == 0 ==> {
                &&& final(self).octant_count == old(self).octant_count
                &&& final(self).octant_child_map@ == old(self).octant_child_map@
                &&& final(self).held(0) == seq![old(self).triangles.len()]
            },
            AABB::of_triangle(triangle).meets(old(self).octant_box(0)) && old(self).is_leaf(0) && old(self).held(0).len() > 0 && old(self).octant_count + 8
                <= usize::MAX && old(self).aabbs.len() + 9 <= usize::MAX ==> final(self).children(0)
                == new_children(old(self).octant_count),
            AABB::of_triangle(triangle).meets(old(self).octant_box(0)) && old(self).is_leaf(0) && old(self).held(0).len() == 1
                && separable(
                old(self).octant_box(0),
                AABB::of_triangle(triangle),
                old(self).triangle_box(old(self).held(0)[0] as int),
            ) && old(self).octant_count + 8 <= usize::MAX && old(self).aabbs.len() + 9 <= usize::MAX
                ==> final(self).split_once(
                old(self),
                old(self).octant_box(0),
                old(self).triangles.len() as int,
                AABB::of_triangle(triangle),
                old(self).held(0)[0] as int,
                old(self).triangle_box(old(self).held(0)[0] as int),
            ),
    {
        let ghost start = *self;
        let triangle_aabb = AABB::from_triangle(&triangle);
        let aabb_index = self.aabbs.len();
        let triangle_index = self.triangles.len();
        self.triangles.push(triangle);
        self.aabbs.push(triangle_aabb);
        self.triangle_aabb_map.push(aabb_index);
        let ghost appended = *self;
        proof {
            lemma_triangle_appended(&start, &appended, triangle);
            assert(appended.node_ok(0));
        }
        let root_depth = self.octant_depth[0];
        self.push_at_octant(triangle_index, aabb_index, 0, root_depth);
        proof {
            lemma_boxes_kept(&appended, self);
            assert(appended.triangle_box(triangle_index as int) == AABB::of_triangle(triangle));
            assert(appended.octant_box(0) == start.octant_box(0)) by {
                assert(start.node_ok(0));
            }
            assert(start.held(0) == appended.held(0));
            assert(start.children(0) == appended.children(0));
            assert(seq![start.triangles.len()] =~= Seq::<usize>::empty().push(triangle_index));
            if start.held(0).len() == 1 {
                let s0 = start.held(0)[0] as int;
                assert(start.node_ok(0));
                assert(appended.triangle_box(s0) == start.triangle_box(s0));
                assert(appended.held(0)[0] == start.held(0)[0]);
                assert(appended.depth(0) == 0);
                let tb = AABB::of_triangle(triangle);
                if tb.meets(start.octant_box(0)) && start.is_leaf(0) && separable(
                    start.octant_box(0),
                    tb,
                    start.triangle_box(s0),
                ) && start.octant_count + 8 <= usize::MAX && start.aabbs.len() + 9 <= usize::MAX {
                    assert(appended.is_leaf(0));
                    assert(appended.held(0).len() == 1);
                    assert(separable(appended.octant_box(0), appended.triangle_box(triangle_index as int), appended.triangle_box(appended.held(0)[0] as int)));
                    assert(self.octant_count == appended.octant_count + 8);
                    assert forall|k: int| 0 <= k < 8 implies (#[trigger] self.held(
                        start.octant_count + k,
                    )) == split_place(start.octant_box(0), k, start.triangles.len() as int, tb, s0, start.triangle_box(s0)) by {
                        assert(self.held(appended.octant_count + k) == split_place(
                            appended.octant_box(0),
                            k,
                            triangle_index as int,
                            appended.triangle_box(triangle_index as int),
                            appended.held(0)[0] as int,
                            appended.triangle_box(appended.held(0)[0] as int),
                        ));
                    }
                    assert forall|k: int| 0 <= k < 8 implies (#[trigger] self.held(
                        start.octant_count + k,
                    )) == split_place(start.octant_box(0), k, start.triangles.len() as int, tb, s0, start.triangle_box(s0)) by {
                        assert(self.held(appended.octant_count + k) == split_place(
                            appended.octant_box(0),
                            k,
                            triangle_index as int,
                            appended.triangle_box(triangle_index as int),
                            appended.held(0)[0] as int,
                            appended.triangle_box(appended.held(0)[0] as int),
                        ));
                    }
                    lemma_split_once(&start, self, start.octant_box(0), start.triangles.len() as int, tb, s0, start.triangle_box(s0));
                    assert(self.split_once(&start, start.octant_box(0), start.triangles.len() as int, tb, s0, start.triangle_box(s0)));
                }
            }
            assert forall|s: int|
                0 <= s < self.triangles.len() && #[trigger] self.triangle_box(s).meets(self.octant_box(0))
                    implies self.in_some_leaf(s) by {
                if s < start.triangles.len() {
                    assert(start.triangle_box(s).meets(start.octant_box(0)));
                    assert(appended.in_some_leaf(s));
                }
            }
        }
    }
}


proof fn lemma_split_once(a: &Octree, f: &Octree, b: AABB, t: int, tb: AABB, s: int, sb: AABB)
    requires
        f.octant_count == a.octant_count + 8,
        forall|k: int|
            0 <= k < 8 ==> (#[trigger] f.held(a.octant_count + k)) == split_place(
                b,
                k,
                t,
                tb,
                s,
                sb,
            ),
    ensures
        f.split_once(a, b, t, tb, s, sb),
{
    assert forall|m: int|
        a.octant_count <= m < a.octant_count + 8 implies (#[trigger] f.held(m)) == split_place(
            b,
            m - a.octant_count,
            t,
            tb,
            s,
            sb,
        ) by {
        let k = m - a.octant_count;
        assert(a.octant_count + k == m);
        assert(f.held(a.octant_count + k) == split_place(b, k, t, tb, s, sb));
    }
    assert(f.octant_count == a.octant_count + 8);
}

/// Every node whose box meets `b` is reached from the root along child
/// links through nodes whose boxes meet `b`: a parent's box holds its
/// child's.
pub proof fn lemma_path_meets(tree: &Octree, n: int, b: AABB)
    requires
        tree.structure(),
        tree.linked(),
        0 <= n < tree.octant_count,
        tree.octant_box(n).meets(b),
    ensures
        tree.path_meets(n, b),
    decreases n,
{
    assert(tree.node_ok(n));
    if n != 0 {
        let p = tree.parent(n);
        assert(tree.children(p).len() != 0);
        lemma_path_meets(tree, p, b);
    }
}

/// No triangle is lost: in a well-formed tree, which `new` builds and
/// `push_triangle` keeps, every stored triangle whose box meets the root box
/// is held by a leaf whose box meets the triangle's box, and that leaf is
/// reached from the root along child links through nodes whose boxes all
/// meet the triangle's box.
pub proof fn lemma_insertion_complete(tree: &Octree, s: int)
    requires
        tree.wf(),
        0 <= s < tree.triangles.len(),
        tree.triangle_box(s).meets(tree.octant_box(0)),
    ensures
        exists|n: int|
            #[trigger] tree.leaf_holds(n, s) && tree.octant_box(n).meets(tree.triangle_box(s)) && tree.path_meets(
                n,
                tree.triangle_box(s),
            ),
{
    assert(tree.in_some_leaf(s));
    let n = choose|n: int| #[trigger] tree.leaf_holds(n, s);
    assert(tree.node_ok(n));
    let j = choose|j: int| 0 <= j < tree.held(n).len() && tree.held(n)[j] == s as usize;
    assert(tree.triangle_box(tree.held(n)[j] as int).meets(tree.octant_box(n)));
    assert(tree.octant_box(n).meets(tree.triangle_box(s)));
    lemma_path_meets(tree, n, tree.triangle_box(s));
}

} // verus!
