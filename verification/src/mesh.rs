//! The triangle-mesh spatial index: a uniform voxel grid over integer-scaled
//! coordinates, populated by conservative triangle voxelization, queried by
//! walking a ray through the cells it crosses.
//!
//! Grid geometry (bounding box, faces, traversal) is kept in coordinates
//! scaled by two, so that the half-cell expansion of the bounding box stays
//! integral; cell indices are unaffected by the common scale. Triangles and
//! returned hit points use the caller's coordinates.

use vstd::prelude::*;
use std::collections::HashMap;
use crate::num::{
    Rat, rat_wf, qv, qeq, qsub, qadd, qmul, qfloor_div, iabs, lemma_qeq_trans, lemma_qmul_congr2,
    lemma_qadd_congr2,
};
use crate::vec3::{Vec3, Wide3, RatPoint, rp_wf, rp_is, bounded3, s_sub, s_dot, lemma_mul_bound};
use crate::utils::{
    intersect_square, intersect_triangle, plane_td, plane_tn, tri_normal, tri_contains,
    quad_contains, s_ray_point,
};
use crate::path::{Path, path_wf, path_measure};
use vstd::arithmetic::mul::lemma_mul_strictly_positive;

verus! {

broadcast use vstd::std_specs::hash::group_hash_axioms;

/// Largest coordinate magnitude the mesh index accepts, for triangle
/// vertices and for query rays.
pub const MESH_LIMIT: i64 = 2048;

/// Why an index could not be built.
#[derive(Debug, Clone, Copy, PartialEq, Eq, Structural)]
pub enum MeshError {
    /// The triangle sequence was empty.
    EmptyMesh,
    /// Some triangle has a zero-length edge, so no positive cell size
    /// exists.
    DegenerateGeometry,
}

/// One triangle of the mesh: three vertices, the face normal it was loaded
/// with, and the centroid of the vertices.
#[derive(Debug, Clone, Copy)]
pub struct Triangle {
    pub p1: Vec3,
    pub p2: Vec3,
    pub p3: Vec3,
    pub normal: Vec3,
    pub center: RatPoint,
}

/// All three vertices lie within `[-k, k]` per coordinate.
pub open spec fn tri_bounded(t: Triangle, k: int) -> bool {
    bounded3(t.p1.v(), k) && bounded3(t.p2.v(), k) && bounded3(t.p3.v(), k)
}

impl Triangle {
    /// Builds a triangle, computing the centroid of its vertices.
    pub fn new(p1: Vec3, p2: Vec3, p3: Vec3, normal: Vec3) -> (t: Triangle)
        ensures
            t.p1 == p1 && t.p2 == p2 && t.p3 == p3 && t.normal == normal,
            rp_wf(t.center),
            qeq(qv(t.center.x), (p1.x + p2.x + p3.x, 3int)),
            qeq(qv(t.center.y), (p1.y + p2.y + p3.y, 3int)),
            qeq(qv(t.center.z), (p1.z + p2.z + p3.z, 3int)),
    {
        let cx = match Rat::build(p1.x as i128 + p2.x as i128 + p3.x as i128, 3) {
            Some(v) => v,
            None => {
                proof {
                    assert(false);
                }
                Rat::from_int(0)
            },
        };
        let cy = match Rat::build(p1.y as i128 + p2.y as i128 + p3.y as i128, 3) {
            Some(v) => v,
            None => {
                proof {
                    assert(false);
                }
                Rat::from_int(0)
            },
        };
        let cz = match Rat::build(p1.z as i128 + p2.z as i128 + p3.z as i128, 3) {
            Some(v) => v,
            None => {
                proof {
                    assert(false);
                }
                Rat::from_int(0)
            },
        };
        Triangle { p1, p2, p3, normal, center: RatPoint { x: cx, y: cy, z: cz } }
    }
}

/// A cell coordinate triple packed into one integer, base 2^32.
pub open spec fn pack_key(k0: int, k1: int, k2: int) -> int {
    k0 + k1 * 0x100000000 + k2 * 0x10000000000000000
}

/// The cell index: a mapping from packed cell coordinates to sets of
/// triangle indices, stored as a key table into a list of index lists.
#[derive(Debug)]
pub struct Tree {
    pub keys: HashMap<u128, usize>,
    pub values: Vec<Vec<usize>>,
}

/// Every key maps to a slot of the value table.
pub open spec fn tree_wf(t: Tree) -> bool {
    forall|k: u128| t.keys@.contains_key(k) ==> #[trigger] t.keys@[k] < t.values@.len()
}

/// Every registered triangle index is below `n`.
pub open spec fn tree_bounded(t: Tree, n: int) -> bool {
    forall|j: int, l: int|
        0 <= j < t.values@.len() && 0 <= l < t.values@[j]@.len() ==> #[trigger] t.values@[j]@[l]
            < n
}

/// Distinct cells own distinct slots of the value table.
pub open spec fn tree_injective(t: Tree) -> bool {
    forall|k1: u128, k2: u128|
        t.keys@.contains_key(k1) && t.keys@.contains_key(k2) && k1 != k2 ==> #[trigger] t.keys@[k1]
            != #[trigger] t.keys@[k2]
}

/// No cell registers the same triangle index twice.
pub open spec fn tree_nodup(t: Tree) -> bool {
    forall|j: int, l1: int, l2: int|
        0 <= j < t.values@.len() && 0 <= l1 < l2 < t.values@[j]@.len()
            ==> #[trigger] t.values@[j]@[l1] != #[trigger] t.values@[j]@[l2]
}

/// Every key of the cell index is a packed triple within the grid.
pub open spec fn tree_in_grid(t: Tree, dx: int, dy: int, dz: int) -> bool {
    forall|k: u128|
        #[trigger] t.keys@.contains_key(k) ==> exists|a: int, b: int, c: int|
            0 <= a < dx && 0 <= b < dy && 0 <= c < dz && k == pack_key(a, b, c)
}

/// The triangle index `v` is registered in the cell `(k0, k1, k2)`.
pub open spec fn tree_has(t: Tree, k0: int, k1: int, k2: int, v: usize) -> bool {
    let pk = pack_key(k0, k1, k2) as u128;
    &&& t.keys@.contains_key(pk)
    &&& t.keys@[pk] < t.values@.len()
    &&& t.values@[t.keys@[pk] as int]@.contains(v)
}

/// The grid cell containing a triangle's third vertex: floor division of
/// the doubled offset from the box corner by the doubled cell edge, clamped
/// into the grid.
pub open spec fn third_vertex_cell(
    t: Triangle,
    bm: (int, int, int),
    unit2: int,
    dims: (int, int, int),
) -> (int, int, int) {
    (
        grid_clamp(clamp_key_div(2 * t.p3.x - bm.0, unit2), dims.0),
        grid_clamp(clamp_key_div(2 * t.p3.y - bm.1, unit2), dims.1),
        grid_clamp(clamp_key_div(2 * t.p3.z - bm.2, unit2), dims.2),
    )
}

/// A cell coordinate clamped into a grid of `d` cells.
pub open spec fn grid_clamp(k: int, d: int) -> int {
    if k >= d {
        d - 1
    } else {
        k
    }
}

impl Tree {
    /// An empty cell index.
    pub fn new() -> (t: Tree)
        ensures
            tree_wf(t),
            tree_bounded(t, 0),
            tree_injective(t),
            tree_nodup(t),
            t.keys@ == Map::<u128, usize>::empty(),
            t.values@.len() == 0,
    {
        Tree { keys: HashMap::new(), values: Vec::new() }
    }

    /// Whether a cell already has a slot.
    pub fn contains_key(&self, key: &[u32; 3]) -> (r: bool)
        ensures
            r == self.keys@.contains_key(
                pack_key(key[0] as int, key[1] as int, key[2] as int) as u128,
            ),
    {
        let packed: u128 = (key[0] as u128) + (key[1] as u128) * 0x100000000
            + (key[2] as u128) * 0x10000000000000000;
        self.keys.contains_key(&packed)
    }

    /// Opens a fresh empty slot for a cell.
    pub fn insert_key(&mut self, key: [u32; 3])
        requires
            tree_wf(*old(self)),
        ensures
            tree_wf(*final(self)),
            final(self).keys@ == old(self).keys@.insert(
                pack_key(key[0] as int, key[1] as int, key[2] as int) as u128,
                old(self).values@.len() as usize,
            ),
            old(self).values@.len() <= usize::MAX,
            final(self).values@.len() == old(self).values@.len() + 1,
            final(self).values@[old(self).values@.len() as int]@ == Seq::<usize>::empty(),
            forall|j: int|
                0 <= j < old(self).values@.len() ==> final(self).values@[j]
                    == #[trigger] old(self).values@[j],
    {
        let packed: u128 = (key[0] as u128) + (key[1] as u128) * 0x100000000
            + (key[2] as u128) * 0x10000000000000000;
        let length = self.values.len();
        self.keys.insert(packed, length);
        self.values.push(Vec::new());
    }

    /// Registers a triangle index in a cell's slot; true when it was not
    /// there yet. The cell must already have a slot.
    pub fn insert(&mut self, key: &[u32; 3], value: usize) -> (r: bool)
        requires
            tree_wf(*old(self)),
            old(self).keys@.contains_key(
                pack_key(key[0] as int, key[1] as int, key[2] as int) as u128,
            ),
        ensures
            tree_wf(*final(self)),
            final(self).keys@ == old(self).keys@,
            final(self).values@.len() == old(self).values@.len(),
            ({
                let slot = old(self).keys@[pack_key(
                    key[0] as int,
                    key[1] as int,
                    key[2] as int,
                ) as u128] as int;
                &&& (r <==> !old(self).values@[slot]@.contains(value))
                &&& final(self).values@[slot]@ == if r {
                    old(self).values@[slot]@.push(value)
                } else {
                    old(self).values@[slot]@
                }
                &&& forall|j: int|
                    0 <= j < old(self).values@.len() && j != slot
                        ==> final(self).values@[j] == #[trigger] old(self).values@[j]
            }),
    {
        let packed: u128 = (key[0] as u128) + (key[1] as u128) * 0x100000000
            + (key[2] as u128) * 0x10000000000000000;
        let slot: usize = match self.keys.get(&packed) {
            Some(s) => *s,
            None => {
                proof {
                    assert(false);
                }
                0
            },
        };
        let list = &self.values[slot];
        let mut present = false;
        let mut i: usize = 0;
        while i < list.len()
            invariant
                i <= list.len(),
                list@ == self.values@[slot as int]@,
                slot < self.values@.len(),
                present ==> list@.contains(value),
                !present ==> forall|l: int| 0 <= l < i ==> list@[l] != value,
            ensures
                !present ==> i == list.len(),
            decreases list.len() - i,
        {
            if list[i] == value {
                present = true;
                proof {
                    assert(list@.contains(value)) by {
                        assert(list@[i as int] == value);
                    }
                }
                break ;
            }
            i += 1;
        }
        proof {
            if present {
                assert(self.values@[slot as int]@.contains(value));
            } else {
                assert(forall|l: int| 0 <= l < list@.len() ==> list@[l] != value);
                assert(!self.values@[slot as int]@.contains(value));
            }
        }
        if present {
            false
        } else {
            let slot_list = &mut self.values[slot];
            slot_list.push(value);
            true
        }
    }

    /// The triangle indices registered in a cell; the cell must have a slot.
    pub fn get(&self, key: &[u32; 3]) -> (r: &Vec<usize>)
        requires
            tree_wf(*self),
            self.keys@.contains_key(
                pack_key(key[0] as int, key[1] as int, key[2] as int) as u128,
            ),
        ensures
            r@ == self.values@[self.keys@[pack_key(
                key[0] as int,
                key[1] as int,
                key[2] as int,
            ) as u128] as int]@,
    {
        let packed: u128 = (key[0] as u128) + (key[1] as u128) * 0x100000000
            + (key[2] as u128) * 0x10000000000000000;
        let slot: usize = match self.keys.get(&packed) {
            Some(s) => *s,
            None => {
                proof {
                    assert(false);
                }
                0
            },
        };
        &self.values[slot]
    }

    /// Whether a triangle index is registered in a cell; the cell must have
    /// a slot.
    pub fn contains(&self, key: &[u32; 3], value: &usize) -> (r: bool)
        requires
            tree_wf(*self),
            self.keys@.contains_key(
                pack_key(key[0] as int, key[1] as int, key[2] as int) as u128,
            ),
        ensures
            r == self.values@[self.keys@[pack_key(
                key[0] as int,
                key[1] as int,
                key[2] as int,
            ) as u128] as int]@.contains(*value),
    {
        let list = self.get(key);
        let mut i: usize = 0;
        let mut present = false;
        while i < list.len()
            invariant
                i <= list.len(),
                list@ == self.values@[self.keys@[pack_key(
                    key[0] as int,
                    key[1] as int,
                    key[2] as int,
                ) as u128] as int]@,
                present ==> list@.contains(*value),
                !present ==> forall|l: int| 0 <= l < i ==> list@[l] != *value,
            ensures
                !present ==> i == list.len(),
            decreases list.len() - i,
        {
            if list[i] == *value {
                present = true;
                proof {
                    assert(list@.contains(*value)) by {
                        assert(list@[i as int] == *value);
                    }
                }
                break ;
            }
            i += 1;
        }
        proof {
            if !present {
                assert(forall|l: int| 0 <= l < list@.len() ==> list@[l] != *value);
            }
        }
        present
    }
}

/// The axis-aligned bounding box of the mesh, materialized as its six
/// rectangular faces of four corners each, for ray/box slab tests.
#[derive(Debug, Clone)]
pub struct Package {
    pub bound_min: Vec3,
    pub bound_max: Vec3,
    pub bounds: [[Vec3; 4]; 6],
}

/// The six faces are exactly the faces of the box `(bound_min, bound_max)`:
/// two per axis, four corners each.
pub open spec fn package_wf(p: Package) -> bool {
    let ax = p.bound_min.x as int;
    let ay = p.bound_min.y as int;
    let az = p.bound_min.z as int;
    let bx = p.bound_max.x as int;
    let by = p.bound_max.y as int;
    let bz = p.bound_max.z as int;
    &&& p.bounds@[0]@[0].v() == (ax, ay, az) && p.bounds@[0]@[1].v() == (ax, by, az)
        && p.bounds@[0]@[2].v() == (ax, ay, bz) && p.bounds@[0]@[3].v() == (ax, by, bz)
    &&& p.bounds@[1]@[0].v() == (bx, ay, az) && p.bounds@[1]@[1].v() == (bx, by, az)
        && p.bounds@[1]@[2].v() == (bx, ay, bz) && p.bounds@[1]@[3].v() == (bx, by, bz)
    &&& p.bounds@[2]@[0].v() == (ax, ay, az) && p.bounds@[2]@[1].v() == (ax, ay, bz)
        && p.bounds@[2]@[2].v() == (bx, ay, az) && p.bounds@[2]@[3].v() == (bx, ay, bz)
    &&& p.bounds@[3]@[0].v() == (ax, by, az) && p.bounds@[3]@[1].v() == (ax, by, bz)
        && p.bounds@[3]@[2].v() == (bx, by, az) && p.bounds@[3]@[3].v() == (bx, by, bz)
    &&& p.bounds@[4]@[0].v() == (ax, ay, az) && p.bounds@[4]@[1].v() == (ax, by, az)
        && p.bounds@[4]@[2].v() == (bx, ay, az) && p.bounds@[4]@[3].v() == (bx, by, az)
    &&& p.bounds@[5]@[0].v() == (ax, ay, bz) && p.bounds@[5]@[1].v() == (ax, by, bz)
        && p.bounds@[5]@[2].v() == (bx, ay, bz) && p.bounds@[5]@[3].v() == (bx, by, bz)
}

impl Package {
    /// Materializes the six faces of a box.
    pub fn new(bound_min: Vec3, bound_max: Vec3) -> (r: Package)
        ensures
            r.bound_min == bound_min,
            r.bound_max == bound_max,
            package_wf(r),
    {
        let x_min = bound_min.x;
        let y_min = bound_min.y;
        let z_min = bound_min.z;
        let x_max = bound_max.x;
        let y_max = bound_max.y;
        let z_max = bound_max.z;
        let bounds: [[Vec3; 4]; 6] = [
            [
                Vec3::new(x_min, y_min, z_min),
                Vec3::new(x_min, y_max, z_min),
                Vec3::new(x_min, y_min, z_max),
                Vec3::new(x_min, y_max, z_max),
            ],
            [
                Vec3::new(x_max, y_min, z_min),
                Vec3::new(x_max, y_max, z_min),
                Vec3::new(x_max, y_min, z_max),
                Vec3::new(x_max, y_max, z_max),
            ],
            [
                Vec3::new(x_min, y_min, z_min),
                Vec3::new(x_min, y_min, z_max),
                Vec3::new(x_max, y_min, z_min),
                Vec3::new(x_max, y_min, z_max),
            ],
            [
                Vec3::new(x_min, y_max, z_min),
                Vec3::new(x_min, y_max, z_max),
                Vec3::new(x_max, y_max, z_min),
                Vec3::new(x_max, y_max, z_max),
            ],
            [
                Vec3::new(x_min, y_min, z_min),
                Vec3::new(x_min, y_max, z_min),
                Vec3::new(x_max, y_min, z_min),
                Vec3::new(x_max, y_max, z_min),
            ],
            [
                Vec3::new(x_min, y_min, z_max),
                Vec3::new(x_min, y_max, z_max),
                Vec3::new(x_max, y_min, z_max),
                Vec3::new(x_max, y_max, z_max),
            ],
        ];
        Package { bound_min, bound_max, bounds }
    }

    /// The faces, as a list.
    pub fn iter(&self) -> (r: Vec<[Vec3; 4]>)
        ensures
            r@.len() == 6,
            forall|i: int| 0 <= i < 6 ==> r@[i] == self.bounds@[i],
    {
        let mut v: Vec<[Vec3; 4]> = Vec::new();
        v.push(self.bounds[0]);
        v.push(self.bounds[1]);
        v.push(self.bounds[2]);
        v.push(self.bounds[3]);
        v.push(self.bounds[4]);
        v.push(self.bounds[5]);
        v
    }
}

/// Minimum of two integers.
pub open spec fn imin(a: int, b: int) -> int {
    if a <= b {
        a
    } else {
        b
    }
}

/// Maximum of two integers.
pub open spec fn imax(a: int, b: int) -> int {
    if a >= b {
        a
    } else {
        b
    }
}

/// Component `c` of an integer triple.
pub open spec fn comp(v: (int, int, int), c: int) -> int {
    if c == 0 {
        v.0
    } else if c == 1 {
        v.1
    } else {
        v.2
    }
}

/// Squared length of the segment between two vertices.
pub open spec fn seg_sq(a: Vec3, b: Vec3) -> int {
    s_dot(s_sub(a.v(), b.v()), s_sub(a.v(), b.v()))
}

/// Smallest squared edge length of one triangle.
pub open spec fn tri_min_edge_sq(t: Triangle) -> int {
    imin(imin(seg_sq(t.p1, t.p2), seg_sq(t.p2, t.p3)), seg_sq(t.p3, t.p1))
}

/// Smallest squared edge length over the first `n` triangles (`n >= 1`).
pub open spec fn min_edge_sq(ts: Seq<Triangle>, n: int) -> int
    decreases n,
{
    if n <= 1 {
        tri_min_edge_sq(ts[0])
    } else {
        imin(min_edge_sq(ts, n - 1), tri_min_edge_sq(ts[n - 1]))
    }
}

/// Smallest coordinate `c` of one triangle's vertices.
pub open spec fn tri_min_c(t: Triangle, c: int) -> int {
    imin(imin(comp(t.p1.v(), c), comp(t.p2.v(), c)), comp(t.p3.v(), c))
}

/// Largest coordinate `c` of one triangle's vertices.
pub open spec fn tri_max_c(t: Triangle, c: int) -> int {
    imax(imax(comp(t.p1.v(), c), comp(t.p2.v(), c)), comp(t.p3.v(), c))
}

/// Smallest coordinate `c` over the first `n` triangles (`n >= 1`).
pub open spec fn mins(ts: Seq<Triangle>, n: int, c: int) -> int
    decreases n,
{
    if n <= 1 {
        tri_min_c(ts[0], c)
    } else {
        imin(mins(ts, n - 1, c), tri_min_c(ts[n - 1], c))
    }
}

/// Largest coordinate `c` over the first `n` triangles (`n >= 1`).
pub open spec fn maxs(ts: Seq<Triangle>, n: int, c: int) -> int
    decreases n,
{
    if n <= 1 {
        tri_max_c(ts[0], c)
    } else {
        imax(maxs(ts, n - 1, c), tri_max_c(ts[n - 1], c))
    }
}

/// Sum of the vertex-coordinate sums (component `c`) of the first `n`
/// triangles: three times the sum of their centroids.
pub open spec fn centroid_sum(ts: Seq<Triangle>, n: int, c: int) -> int
    decreases n,
{
    if n <= 0 {
        0
    } else {
        centroid_sum(ts, n - 1, c) + comp(ts[n - 1].p1.v(), c) + comp(ts[n - 1].p2.v(), c)
            + comp(ts[n - 1].p3.v(), c)
    }
}

/// The triangle-mesh index: the triangles, their centroid mean, the cell
/// index, the expanded bounding box (in doubled coordinates), the grid
/// dimensions and the cell edge length.
#[derive(Debug)]
pub struct Mesh {
    pub triangles: Vec<Triangle>,
    pub center: RatPoint,
    pub tree: Tree,
    pub package: Package,
    pub dx: u32,
    pub dy: u32,
    pub dz: u32,
    pub unit: i64,
}

/// Internal consistency of a built index. The package bounds are in doubled
/// coordinates and stay well within the quad predicate's coordinate limit.
pub open spec fn mesh_wf(m: Mesh) -> bool {
    &&& m.triangles@.len() >= 1
    &&& forall|i: int|
        0 <= i < m.triangles@.len() ==> tri_bounded(#[trigger] m.triangles@[i], MESH_LIMIT as int)
    &&& 1 <= m.unit <= 8192
    &&& tree_wf(m.tree)
    &&& tree_bounded(m.tree, m.triangles@.len() as int)
    &&& tree_injective(m.tree)
    &&& tree_nodup(m.tree)
    &&& tree_in_grid(m.tree, m.dx as int, m.dy as int, m.dz as int)
    &&& package_wf(m.package)
    &&& bounded3(m.package.bound_min.v(), 16384)
    &&& bounded3(m.package.bound_max.v(), 16384)
    &&& m.dx >= 1 && m.dy >= 1 && m.dz >= 1
    &&& rp_wf(m.center)
}

/// Minimum of two machine integers.
fn imin64(a: i64, b: i64) -> (r: i64)
    ensures
        r as int == imin(a as int, b as int),
{
    if a <= b {
        a
    } else {
        b
    }
}

/// Maximum of two machine integers.
fn imax64(a: i64, b: i64) -> (r: i64)
    ensures
        r as int == imax(a as int, b as int),
{
    if a >= b {
        a
    } else {
        b
    }
}

/// Squared length of an edge between two bounded vertices.
fn edge_sq(a: Vec3, b: Vec3) -> (r: u64)
    requires
        bounded3(a.v(), MESH_LIMIT as int),
        bounded3(b.v(), MESH_LIMIT as int),
    ensures
        r as int == seg_sq(a, b),
        r <= 50331648,
{
    let dx = a.x - b.x;
    let dy = a.y - b.y;
    let dz = a.z - b.z;
    proof {
        assert(0 <= dx * dx <= 16777216 && 0 <= dy * dy <= 16777216 && 0 <= dz * dz
            <= 16777216) by (nonlinear_arith)
            requires
                -4096 <= dx <= 4096,
                -4096 <= dy <= 4096,
                -4096 <= dz <= 4096,
        ;
    }
    (dx * dx + dy * dy + dz * dz) as u64
}

/// Integer square root: the largest `r` with `r * r <= n`.
fn isqrt64(n: u64) -> (r: u64)
    requires
        n <= 50331648,
    ensures
        r * r <= n,
        n < (r + 1) * (r + 1),
{
    let mut r: u64 = 0;
    loop
        invariant
            r * r <= n,
            r <= n,
            n <= 50331648,
        ensures
            n < (r + 1) * (r + 1),
        decreases n - r,
    {
        let s = r + 1;
        proof {
            assert(s * s <= 0x10000000000000) by (nonlinear_arith)
                requires
                    1 <= s <= 50331649u64,
            ;
        }
        if s * s <= n {
            proof {
                assert(s <= n) by (nonlinear_arith)
                    requires
                        s * s <= n,
                        s >= 1,
                ;
            }
            r = s;
        } else {
            break ;
        }
    }
    r
}

/// Cell coordinate of a nonnegative shifted coordinate: floor division by
/// the cell edge, saturated below at zero.
fn key_div(shifted: i64, unit2: i64) -> (r: u32)
    requires
        1 <= unit2,
        shifted <= 65536,
    ensures
        r as int == clamp_key_div(shifted as int, unit2 as int),
{
    if shifted < 0 {
        0
    } else {
        let q = (shifted as u64) / (unit2 as u64);
        proof {
            assert(q <= 65536) by (nonlinear_arith)
                requires
                    q == shifted as int / unit2 as int,
                    0 <= shifted <= 65536,
                    unit2 >= 1,
            ;
        }
        q as u32
    }
}

/// Floor division of a shifted coordinate by the cell edge, at least zero.
pub open spec fn clamp_key_div(shifted: int, unit2: int) -> int {
    if shifted < 0 {
        0
    } else {
        shifted / unit2
    }
}

impl Mesh {
    /// Builds the spatial index from a finalized triangle list: bounding box
    /// and cell size from the geometry, grid dimensions from the extents,
    /// then a conservative voxelization of every triangle into the cell
    /// index by nested grid traversals. An empty list or one with a
    /// zero-length edge is rejected.
    pub fn new(triangles: Vec<Triangle>) -> (r: Result<Mesh, MeshError>)
        requires
            forall|i: int|
                0 <= i < triangles@.len() ==> tri_bounded(
                    #[trigger] triangles@[i],
                    MESH_LIMIT as int,
                ),
        ensures
            r == Err::<Mesh, MeshError>(MeshError::EmptyMesh) <==> triangles@.len() == 0,
            r == Err::<Mesh, MeshError>(MeshError::DegenerateGeometry) <==> triangles@.len() > 0
                && min_edge_sq(triangles@, triangles@.len() as int) == 0,
            r matches Ok(m) ==> {
                let ts = triangles@;
                let n = ts.len() as int;
                &&& mesh_wf(m)
                &&& m.triangles@ == ts
                &&& m.unit * m.unit <= min_edge_sq(ts, n) < (m.unit + 1) * (m.unit + 1)
                &&& m.package.bound_min.v() == (
                    2 * mins(ts, n, 0) - m.unit,
                    2 * mins(ts, n, 1) - m.unit,
                    2 * mins(ts, n, 2) - m.unit,
                )
                &&& m.package.bound_max.v() == (
                    2 * maxs(ts, n, 0) + m.unit,
                    2 * maxs(ts, n, 1) + m.unit,
                    2 * maxs(ts, n, 2) + m.unit,
                )
                &&& m.dx as int == (maxs(ts, n, 0) - mins(ts, n, 0) + m.unit - 1) / (
                m.unit as int) + 1
                &&& m.dy as int == (maxs(ts, n, 1) - mins(ts, n, 1) + m.unit - 1) / (
                m.unit as int) + 1
                &&& m.dz as int == (maxs(ts, n, 2) - mins(ts, n, 2) + m.unit - 1) / (
                m.unit as int) + 1
                &&& qeq(qv(m.center.x), (centroid_sum(ts, n, 0), 3 * n))
                &&& qeq(qv(m.center.y), (centroid_sum(ts, n, 1), 3 * n))
                &&& qeq(qv(m.center.z), (centroid_sum(ts, n, 2), 3 * n))
                &&& forall|i: int|
                    0 <= i < n ==> {
                        let cc = third_vertex_cell(
                            #[trigger] ts[i],
                            m.package.bound_min.v(),
                            2 * m.unit as int,
                            (m.dx as int, m.dy as int, m.dz as int),
                        );
                        tree_has(m.tree, cc.0, cc.1, cc.2, i as usize)
                    }
            },
    {
        let n = triangles.len();
        if n == 0 {
            return Err(MeshError::EmptyMesh);
        }
        let first = triangles[0];
        let mut bminx = imin64(imin64(first.p1.x, first.p2.x), first.p3.x);
        let mut bminy = imin64(imin64(first.p1.y, first.p2.y), first.p3.y);
        let mut bminz = imin64(imin64(first.p1.z, first.p2.z), first.p3.z);
        let mut bmaxx = imax64(imax64(first.p1.x, first.p2.x), first.p3.x);
        let mut bmaxy = imax64(imax64(first.p1.y, first.p2.y), first.p3.y);
        let mut bmaxz = imax64(imax64(first.p1.z, first.p2.z), first.p3.z);
        let mut usq: u64 = {
            let e1 = edge_sq(first.p1, first.p2);
            let e2 = edge_sq(first.p2, first.p3);
            let e3 = edge_sq(first.p3, first.p1);
            let m12 = if e1 <= e2 {
                e1
            } else {
                e2
            };
            if m12 <= e3 {
                m12
            } else {
                e3
            }
        };
        let mut sx: i128 = (first.p1.x + first.p2.x + first.p3.x) as i128;
        let mut sy: i128 = (first.p1.y + first.p2.y + first.p3.y) as i128;
        let mut sz: i128 = (first.p1.z + first.p2.z + first.p3.z) as i128;
        proof {
            assert(centroid_sum(triangles@, 0, 0) == 0);
            assert(centroid_sum(triangles@, 0, 1) == 0);
            assert(centroid_sum(triangles@, 0, 2) == 0);
        }
        let mut i: usize = 1;
        while i < n
            invariant
                1 <= i <= n,
                n == triangles@.len(),
                forall|j: int|
                    0 <= j < triangles@.len() ==> tri_bounded(
                        #[trigger] triangles@[j],
                        MESH_LIMIT as int,
                    ),
                bminx as int == mins(triangles@, i as int, 0),
                bminy as int == mins(triangles@, i as int, 1),
                bminz as int == mins(triangles@, i as int, 2),
                bmaxx as int == maxs(triangles@, i as int, 0),
                bmaxy as int == maxs(triangles@, i as int, 1),
                bmaxz as int == maxs(triangles@, i as int, 2),
                usq as int == min_edge_sq(triangles@, i as int),
                usq <= 50331648,
                -2048 <= bminx <= 2048 && -2048 <= bminy <= 2048 && -2048 <= bminz <= 2048,
                -2048 <= bmaxx <= 2048 && -2048 <= bmaxy <= 2048 && -2048 <= bmaxz <= 2048,
                bminx <= bmaxx && bminy <= bmaxy && bminz <= bmaxz,
                sx == centroid_sum(triangles@, i as int, 0),
                sy == centroid_sum(triangles@, i as int, 1),
                sz == centroid_sum(triangles@, i as int, 2),
                -6144 * (i as int) <= sx <= 6144 * (i as int),
                -6144 * (i as int) <= sy <= 6144 * (i as int),
                -6144 * (i as int) <= sz <= 6144 * (i as int),
            decreases n - i,
        {
            let t = triangles[i];
            bminx = imin64(bminx, imin64(imin64(t.p1.x, t.p2.x), t.p3.x));
            bminy = imin64(bminy, imin64(imin64(t.p1.y, t.p2.y), t.p3.y));
            bminz = imin64(bminz, imin64(imin64(t.p1.z, t.p2.z), t.p3.z));
            bmaxx = imax64(bmaxx, imax64(imax64(t.p1.x, t.p2.x), t.p3.x));
            bmaxy = imax64(bmaxy, imax64(imax64(t.p1.y, t.p2.y), t.p3.y));
            bmaxz = imax64(bmaxz, imax64(imax64(t.p1.z, t.p2.z), t.p3.z));
            let e1 = edge_sq(t.p1, t.p2);
            let e2 = edge_sq(t.p2, t.p3);
            let e3 = edge_sq(t.p3, t.p1);
            let m12 = if e1 <= e2 {
                e1
            } else {
                e2
            };
            let tmin = if m12 <= e3 {
                m12
            } else {
                e3
            };
            if tmin < usq {
                usq = tmin;
            }
            sx = sx + (t.p1.x + t.p2.x + t.p3.x) as i128;
            sy = sy + (t.p1.y + t.p2.y + t.p3.y) as i128;
            sz = sz + (t.p1.z + t.p2.z + t.p3.z) as i128;
            i += 1;
        }
        if usq == 0 {
            return Err(MeshError::DegenerateGeometry);
        }
        let unit_u = isqrt64(usq);
        proof {
            assert(unit_u >= 1) by (nonlinear_arith)
                requires
                    unit_u * unit_u <= usq,
                    usq < (unit_u + 1) * (unit_u + 1),
                    usq >= 1,
            ;
            assert(unit_u <= 8192) by (nonlinear_arith)
                requires
                    unit_u * unit_u <= usq,
                    usq <= 50331648,
            ;
        }
        let unit = unit_u as i64;
        let ex = (bmaxx - bminx) as u64;
        let ey = (bmaxy - bminy) as u64;
        let ez = (bmaxz - bminz) as u64;
        let qx = (ex + unit_u - 1) / unit_u;
        let qy = (ey + unit_u - 1) / unit_u;
        let qz = (ez + unit_u - 1) / unit_u;
        proof {
            assert(qx <= 4096 && qy <= 4096 && qz <= 4096) by (nonlinear_arith)
                requires
                    qx == (ex + unit_u - 1) as int / unit_u as int,
                    qy == (ey + unit_u - 1) as int / unit_u as int,
                    qz == (ez + unit_u - 1) as int / unit_u as int,
                    ex <= 4096 && ey <= 4096 && ez <= 4096,
                    1 <= unit_u <= 8192,
            ;
        }
        let dxv = (qx + 1) as u32;
        let dyv = (qy + 1) as u32;
        let dzv = (qz + 1) as u32;
        let b2min = Vec3::new(2 * bminx - unit, 2 * bminy - unit, 2 * bminz - unit);
        let b2max = Vec3::new(2 * bmaxx + unit, 2 * bmaxy + unit, 2 * bmaxz + unit);
        let package = Package::new(b2min, b2max);
        let nd: i128 = 3 * (n as i128);
        let cxr = match Rat::build(sx, nd) {
            Some(v) => v,
            None => {
                proof {
                    assert(false);
                }
                Rat::from_int(0)
            },
        };
        let cyr = match Rat::build(sy, nd) {
            Some(v) => v,
            None => {
                proof {
                    assert(false);
                }
                Rat::from_int(0)
            },
        };
        let czr = match Rat::build(sz, nd) {
            Some(v) => v,
            None => {
                proof {
                    assert(false);
                }
                Rat::from_int(0)
            },
        };
        let center = RatPoint { x: cxr, y: cyr, z: czr };
        // conservative voxelization: walk vertex 1 -> vertex 2, and inside
        // each step walk vertex 3 -> the current point, registering every
        // cell the inner walk visits
        let mut tree = Tree::new();
        let unit2 = 2 * unit;
        let ghost bmv = (b2min.x as int, b2min.y as int, b2min.z as int);
        let ghost dimsv = (dxv as int, dyv as int, dzv as int);
        let mut index: usize = 0;
        while index < n
            invariant
                n == triangles@.len(),
                n >= 1,
                forall|j: int|
                    0 <= j < triangles@.len() ==> tri_bounded(
                        #[trigger] triangles@[j],
                        MESH_LIMIT as int,
                    ),
                tree_wf(tree),
                tree_bounded(tree, n as int),
                tree_injective(tree),
                tree_nodup(tree),
                tree_in_grid(tree, dxv as int, dyv as int, dzv as int),
                forall|j: int|
                    0 <= j < index ==> {
                        let cc = third_vertex_cell(
                            #[trigger] triangles@[j],
                            bmv,
                            unit2 as int,
                            dimsv,
                        );
                        tree_has(tree, cc.0, cc.1, cc.2, j as usize)
                    },
                2 <= unit2 <= 16384,
                bmv == (b2min.x as int, b2min.y as int, b2min.z as int),
                dimsv == (dxv as int, dyv as int, dzv as int),
                -12288 <= b2min.x <= 12288 && -12288 <= b2min.y <= 12288 && -12288 <= b2min.z
                    <= 12288,
                1 <= dxv && 1 <= dyv && 1 <= dzv,
            decreases n - index,
        {
            let t = triangles[index];
            let s1 = shift_vertex(t.p1, b2min);
            let s2 = shift_vertex(t.p2, b2min);
            let s3 = shift_vertex(t.p3, b2min);
            let k1 = [key_div(s1.x, unit2), key_div(s1.y, unit2), key_div(s1.z, unit2)];
            let k2 = [key_div(s2.x, unit2), key_div(s2.y, unit2), key_div(s2.z, unit2)];
            let k3 = [key_div(s3.x, unit2), key_div(s3.y, unit2), key_div(s3.z, unit2)];
            let ghost cur = third_vertex_cell(triangles@[index as int], bmv, unit2 as int, dimsv);
            proof {
                assert(grid_clamp(k3[0] as int, dxv as int) == cur.0);
                assert(grid_clamp(k3[1] as int, dyv as int) == cur.1);
                assert(grid_clamp(k3[2] as int, dzv as int) == cur.2);
            }
            let p1 = RatPoint::from_ints(s1.x, s1.y, s1.z);
            let p2 = RatPoint::from_ints(s2.x, s2.y, s2.z);
            let p3 = RatPoint::from_ints(s3.x, s3.y, s3.z);
            let mut global = Path::new(k1, p1, k2, p2, unit2, dxv, dyv, dzv);
            loop
                invariant
                    path_wf(global),
                    tree_wf(tree),
                    tree_bounded(tree, n as int),
                    tree_injective(tree),
                    tree_nodup(tree),
                    tree_in_grid(tree, dxv as int, dyv as int, dzv as int),
                    forall|j: int|
                        0 <= j < index ==> {
                            let cc = third_vertex_cell(
                                #[trigger] triangles@[j],
                                bmv,
                                unit2 as int,
                                dimsv,
                            );
                            tree_has(tree, cc.0, cc.1, cc.2, j as usize)
                        },
                    !global.first ==> tree_has(tree, cur.0, cur.1, cur.2, index),
                    grid_clamp(k3[0] as int, dxv as int) == cur.0,
                    grid_clamp(k3[1] as int, dyv as int) == cur.1,
                    grid_clamp(k3[2] as int, dzv as int) == cur.2,
                    index < n,
                    n == triangles@.len(),
                    rp_wf(p3),
                    2 <= unit2 <= 16384,
                    1 <= dxv && 1 <= dyv && 1 <= dzv,
                ensures
                    !global.first,
                decreases path_measure(global),
            {
                let more = global.next();
                if !more {
                    break ;
                }
                let mut local = Path::new(
                    k3,
                    p3,
                    global.current_key,
                    global.current_point,
                    unit2,
                    dxv,
                    dyv,
                    dzv,
                );
                loop
                    invariant
                        path_wf(local),
                        tree_wf(tree),
                        tree_bounded(tree, n as int),
                        tree_injective(tree),
                        tree_nodup(tree),
                        tree_in_grid(tree, dxv as int, dyv as int, dzv as int),
                        forall|j: int|
                            0 <= j < index ==> {
                                let cc = third_vertex_cell(
                                    #[trigger] triangles@[j],
                                    bmv,
                                    unit2 as int,
                                    dimsv,
                                );
                                tree_has(tree, cc.0, cc.1, cc.2, j as usize)
                            },
                        !local.first ==> tree_has(tree, cur.0, cur.1, cur.2, index),
                        local.first ==> local.current_key == k3,
                        grid_clamp(k3[0] as int, dxv as int) == cur.0,
                        grid_clamp(k3[1] as int, dyv as int) == cur.1,
                        grid_clamp(k3[2] as int, dzv as int) == cur.2,
                        index < n,
                        n == triangles@.len(),
                        1 <= dxv && 1 <= dyv && 1 <= dzv,
                    ensures
                        !local.first,
                    decreases path_measure(local),
                {
                    let ghost was_first = local.first;
                    let more2 = local.next();
                    if !more2 {
                        break ;
                    }
                    let key = local.current_key;
                    register_cell(&mut tree, key, index, dxv, dyv, dzv, Ghost(n as int));
                    proof {
                        if was_first {
                            assert(key == k3);
                            assert(tree_has(tree, cur.0, cur.1, cur.2, index));
                        }
                    }
                }
                proof {
                    assert(!local.first);
                }
            }
            proof {
                assert(!global.first);
            }
            index += 1;
        }
        Ok(
            Mesh {
                triangles,
                center,
                tree,
                package,
                dx: dxv,
                dy: dyv,
                dz: dzv,
                unit,
            },
        )
    }
}

/// The face `i` of the package is hit by the ray: the ray is not parallel
/// to its plane and the hit passes the face's containment test.
pub open spec fn face_hits(p: Package, i: int, ov: (int, int, int), dv: (int, int, int)) -> bool {
    let f = p.bounds@[i];
    &&& plane_td(dv, tri_normal(f@[0].v(), f@[1].v(), f@[2].v())) != 0
    &&& quad_contains(f@[0].v(), f@[1].v(), f@[2].v(), f@[3].v(), ov, dv)
}

/// The hit point of the ray on the plane of face `i`.
pub open spec fn face_point(p: Package, i: int, ov: (int, int, int), dv: (int, int, int)) -> (
    (int, int),
    (int, int),
    (int, int),
) {
    let f = p.bounds@[i];
    let n = tri_normal(f@[0].v(), f@[1].v(), f@[2].v());
    s_ray_point(ov, dv, plane_tn(f@[0].v(), ov, n), plane_td(dv, n))
}

/// The ray parameter of the hit on face `i`'s plane, as a numerator and
/// denominator over the face's normal.
pub open spec fn face_t(p: Package, i: int, ov: (int, int, int), dv: (int, int, int)) -> (
    int,
    int,
) {
    let f = p.bounds@[i];
    let n = tri_normal(f@[0].v(), f@[1].v(), f@[2].v());
    (plane_tn(f@[0].v(), ov, n), plane_td(dv, n))
}

/// The hit on face `i` lies no farther from the ray origin than the hit on
/// face `j`: along one ray, squared distance to the origin is ordered
/// exactly as the magnitude of the ray parameter, `|tn/td|`, compared here
/// by cross multiplication of magnitudes.
pub open spec fn face_closer_eq(p: Package, i: int, j: int, ov: (int, int, int), dv: (
    int,
    int,
    int,
)) -> bool {
    iabs(face_t(p, i, ov, dv).0) * iabs(face_t(p, j, ov, dv).1) <= iabs(face_t(p, j, ov, dv).0)
        * iabs(face_t(p, i, ov, dv).1)
}

/// The exact squared distance between a rational point and an integer
/// point, as a rational pair.
pub open spec fn rp_dist_sq(p: RatPoint, o: (int, int, int)) -> (int, int) {
    let dx = qsub(qv(p.x), (o.0, 1));
    let dy = qsub(qv(p.y), (o.1, 1));
    let dz = qsub(qv(p.z), (o.2, 1));
    qadd(qadd(qmul(dx, dx), qmul(dy, dy)), qmul(dz, dz))
}

/// Cell coordinate of one hit-point component: floor of the offset from the
/// box corner divided by the cell edge, clamped into `[0, dmax]`.
pub open spec fn s_compute_key(v: (int, int), bmin: int, unit2: int, dmax: int) -> int {
    let q = qfloor_div(qsub(v, (bmin, 1)), unit2);
    if q < 0 {
        0
    } else if q > dmax {
        dmax
    } else {
        q
    }
}

/// A point matches a computed cell key for the given box and grid.
pub open spec fn key_matches(
    key: [u32; 3],
    p: RatPoint,
    bmin: (int, int, int),
    unit2: int,
    dims: (int, int, int),
) -> bool {
    &&& key[0] as int == s_compute_key(qv(p.x), bmin.0, unit2, dims.0 - 1)
    &&& key[1] as int == s_compute_key(qv(p.y), bmin.1, unit2, dims.1 - 1)
    &&& key[2] as int == s_compute_key(qv(p.z), bmin.2, unit2, dims.2 - 1)
}

/// A genuine ray/triangle intersection: the ray is not parallel to the
/// triangle's plane, the hit passes the barycentric containment test, and
/// `point` is exactly the hit point.
pub open spec fn mesh_tri_hit(
    t: Triangle,
    ov: (int, int, int),
    dv: (int, int, int),
    point: RatPoint,
) -> bool {
    let n = tri_normal(t.p1.v(), t.p2.v(), t.p3.v());
    &&& plane_td(dv, n) != 0
    &&& tri_contains(t.p1.v(), t.p2.v(), t.p3.v(), ov, dv)
    &&& rp_is(point, s_ray_point(ov, dv, plane_tn(t.p1.v(), ov, n), plane_td(dv, n)))
}

/// Squared distance between an exact point and an integer point, when it
/// stays representable: exactly `rp_dist_sq`.
fn dist_sq(p: &RatPoint, o: Vec3) -> (r: Option<Rat>)
    requires
        rp_wf(*p),
    ensures
        r matches Some(s) ==> rat_wf(s) && qeq(qv(s), rp_dist_sq(*p, o.v())),
{
    let dx = match p.x.sub(&Rat::from_int(o.x)) {
        Some(v) => v,
        None => {
            return None;
        },
    };
    let dy = match p.y.sub(&Rat::from_int(o.y)) {
        Some(v) => v,
        None => {
            return None;
        },
    };
    let dz = match p.z.sub(&Rat::from_int(o.z)) {
        Some(v) => v,
        None => {
            return None;
        },
    };
    let sx = match dx.mul(&dx) {
        Some(v) => v,
        None => {
            return None;
        },
    };
    let sy = match dy.mul(&dy) {
        Some(v) => v,
        None => {
            return None;
        },
    };
    let sz = match dz.mul(&dz) {
        Some(v) => v,
        None => {
            return None;
        },
    };
    let sxy = match sx.add(&sy) {
        Some(v) => v,
        None => {
            return None;
        },
    };
    let total = match sxy.add(&sz) {
        Some(v) => v,
        None => {
            return None;
        },
    };
    proof {
        let dxp = qsub(qv(p.x), (o.x as int, 1int));
        let dyp = qsub(qv(p.y), (o.y as int, 1int));
        let dzp = qsub(qv(p.z), (o.z as int, 1int));
        lemma_mul_strictly_positive(dx.d as int, dx.d as int);
        lemma_mul_strictly_positive(dy.d as int, dy.d as int);
        lemma_mul_strictly_positive(dz.d as int, dz.d as int);
        assert(dxp.1 == p.x.d as int * 1 && dyp.1 == p.y.d as int * 1 && dzp.1 == p.z.d as int
            * 1);
        lemma_qmul_congr2(qv(sx), qv(sx), qv(dx), dxp);
        // each square equals the square of the exact difference
        lemma_qmul_congr2(qv(dx), dxp, qv(dx), dxp);
        lemma_qmul_congr2(qv(dy), dyp, qv(dy), dyp);
        lemma_qmul_congr2(qv(dz), dzp, qv(dz), dzp);
        lemma_qeq_trans(qv(sx), qmul(qv(dx), qv(dx)), qmul(dxp, dxp));
        lemma_qeq_trans(qv(sy), qmul(qv(dy), qv(dy)), qmul(dyp, dyp));
        lemma_qeq_trans(qv(sz), qmul(qv(dz), qv(dz)), qmul(dzp, dzp));
        lemma_mul_strictly_positive(dxp.1, dxp.1);
        lemma_mul_strictly_positive(dyp.1, dyp.1);
        lemma_mul_strictly_positive(dzp.1, dzp.1);
        lemma_qadd_congr2(qv(sx), qmul(dxp, dxp), qv(sy), qmul(dyp, dyp));
        lemma_mul_strictly_positive(sx.d as int, sy.d as int);
        lemma_mul_strictly_positive(qmul(dxp, dxp).1, qmul(dyp, dyp).1);
        lemma_qeq_trans(
            qv(sxy),
            qadd(qv(sx), qv(sy)),
            qadd(qmul(dxp, dxp), qmul(dyp, dyp)),
        );
        lemma_qadd_congr2(qv(sxy), qadd(qmul(dxp, dxp), qmul(dyp, dyp)), qv(sz), qmul(dzp, dzp));
        lemma_mul_strictly_positive(sxy.d as int, sz.d as int);
        lemma_mul_strictly_positive(
            qadd(qmul(dxp, dxp), qmul(dyp, dyp)).1,
            qmul(dzp, dzp).1,
        );
        lemma_qeq_trans(
            qv(total),
            qadd(qv(sxy), qv(sz)),
            qadd(qadd(qmul(dxp, dxp), qmul(dyp, dyp)), qmul(dzp, dzp)),
        );
    }
    Some(total)
}

/// A point shifted by an integer offset, exactly.
fn sub_point_int(p: &RatPoint, o: Vec3) -> (r: Option<RatPoint>)
    requires
        rp_wf(*p),
    ensures
        r matches Some(q) ==> {
            &&& rp_wf(q)
            &&& qeq(qv(q.x), qsub(qv(p.x), (o.x as int, 1int)))
            &&& qeq(qv(q.y), qsub(qv(p.y), (o.y as int, 1int)))
            &&& qeq(qv(q.z), qsub(qv(p.z), (o.z as int, 1int)))
        },
{
    let x = match p.x.sub(&Rat::from_int(o.x)) {
        Some(v) => v,
        None => {
            return None;
        },
    };
    let y = match p.y.sub(&Rat::from_int(o.y)) {
        Some(v) => v,
        None => {
            return None;
        },
    };
    let z = match p.z.sub(&Rat::from_int(o.z)) {
        Some(v) => v,
        None => {
            return None;
        },
    };
    Some(RatPoint { x, y, z })
}

impl Mesh {
    /// Cell coordinate of a point inside (or clamped to) the grid.
    fn _compute_key(&self, point: &RatPoint) -> (r: Option<[u32; 3]>)
        requires
            mesh_wf(*self),
            rp_wf(*point),
        ensures
            r matches Some(k) ==> key_matches(
                k,
                *point,
                self.package.bound_min.v(),
                2 * self.unit as int,
                (self.dx as int, self.dy as int, self.dz as int),
            ),
            point.x.d <= 105553116266496 && point.y.d <= 105553116266496 && point.z.d
                <= 105553116266496 && iabs(point.x.n as int) <= 5188146770730811392 && iabs(
                point.y.n as int,
            ) <= 5188146770730811392 && iabs(point.z.n as int) <= 5188146770730811392 ==> r
                is Some,
    {
        let unit2 = 2 * self.unit;
        let kx = match compute_key_c(&point.x, self.package.bound_min.x, unit2, self.dx) {
            Some(v) => v,
            None => {
                return None;
            },
        };
        let ky = match compute_key_c(&point.y, self.package.bound_min.y, unit2, self.dy) {
            Some(v) => v,
            None => {
                return None;
            },
        };
        let kz = match compute_key_c(&point.z, self.package.bound_min.z, unit2, self.dz) {
            Some(v) => v,
            None => {
                return None;
            },
        };
        Some([kx, ky, kz])
    }

    /// Finds where the ray enters and leaves the mesh's bounding box: the
    /// ray is tested against the six faces, and among the hit faces the hit
    /// nearest to the origin is the entry, the farthest the exit, each with
    /// its containing cell. Along one ray, nearness by squared distance is
    /// the order of the ray-parameter magnitudes, which the selection
    /// compares exactly in integers. No hit on any face means the ray misses
    /// the box.
    fn _hit_package(&self, ray_origin: Vec3, ray_direction: Vec3) -> (r: Option<
        (([u32; 3], RatPoint), ([u32; 3], RatPoint)),
    >)
        requires
            mesh_wf(*self),
            bounded3(ray_origin.v(), 4096),
            bounded3(ray_direction.v(), 4096),
        ensures
            r matches Some(h) ==> {
                &&& rp_wf(h.0.1) && rp_wf(h.1.1)
                &&& exists|i: int|
                    0 <= i < 6 && #[trigger] face_hits(
                        self.package,
                        i,
                        ray_origin.v(),
                        ray_direction.v(),
                    ) && rp_is(
                        h.0.1,
                        face_point(self.package, i, ray_origin.v(), ray_direction.v()),
                    ) && forall|j: int|
                        0 <= j < 6 && #[trigger] face_hits(
                            self.package,
                            j,
                            ray_origin.v(),
                            ray_direction.v(),
                        ) ==> face_closer_eq(self.package, i, j, ray_origin.v(), ray_direction.v())
                &&& exists|i: int|
                    0 <= i < 6 && #[trigger] face_hits(
                        self.package,
                        i,
                        ray_origin.v(),
                        ray_direction.v(),
                    ) && rp_is(
                        h.1.1,
                        face_point(self.package, i, ray_origin.v(), ray_direction.v()),
                    ) && forall|j: int|
                        0 <= j < 6 && #[trigger] face_hits(
                            self.package,
                            j,
                            ray_origin.v(),
                            ray_direction.v(),
                        ) ==> face_closer_eq(self.package, j, i, ray_origin.v(), ray_direction.v())
                &&& key_matches(
                    h.0.0,
                    h.0.1,
                    self.package.bound_min.v(),
                    2 * self.unit as int,
                    (self.dx as int, self.dy as int, self.dz as int),
                )
                &&& key_matches(
                    h.1.0,
                    h.1.1,
                    self.package.bound_min.v(),
                    2 * self.unit as int,
                    (self.dx as int, self.dy as int, self.dz as int),
                )
            },
            r is Some <==> exists|i: int|
                0 <= i < 6 && #[trigger] face_hits(
                    self.package,
                    i,
                    ray_origin.v(),
                    ray_direction.v(),
                ),
    {
        let faces = self.package.iter();
        let mut nearest: Option<(RatPoint, i128, i128)> = None;
        let mut farthest: Option<(RatPoint, i128, i128)> = None;
        let ghost mut ni: int = 0;
        let ghost mut fi: int = 0;
        let ghost ov = ray_origin.v();
        let ghost dv = ray_direction.v();
        let o = Wide3::from_vec3(&ray_origin);
        let d = Wide3::from_vec3(&ray_direction);
        let mut i: usize = 0;
        while i < 6
            invariant
                mesh_wf(*self),
                bounded3(ray_origin.v(), 4096),
                bounded3(ray_direction.v(), 4096),
                ov == ray_origin.v(),
                dv == ray_direction.v(),
                o.v() == ray_origin.v(),
                d.v() == ray_direction.v(),
                faces@.len() == 6,
                forall|j: int| 0 <= j < 6 ==> faces@[j] == self.package.bounds@[j],
                i <= 6,
                nearest matches Some(b) ==> {
                    &&& rp_wf(b.0)
                    &&& 0 <= ni < i
                    &&& face_hits(self.package, ni, ov, dv)
                    &&& rp_is(b.0, face_point(self.package, ni, ov, dv))
                    &&& (b.1 as int, b.2 as int) == face_t(self.package, ni, ov, dv)
                    &&& iabs(b.1 as int) <= 131941395333120 && iabs(b.2 as int)
                        <= 26388279066624
                    &&& b.0.x.d <= 105553116266496 && b.0.y.d <= 105553116266496 && b.0.z.d
                        <= 105553116266496
                    &&& iabs(b.0.x.n as int) <= 5188146770730811392
                    &&& iabs(b.0.y.n as int) <= 5188146770730811392
                    &&& iabs(b.0.z.n as int) <= 5188146770730811392
                    &&& forall|l: int|
                        0 <= l < i && #[trigger] face_hits(self.package, l, ov, dv)
                            ==> face_closer_eq(self.package, ni, l, ov, dv)
                },
                farthest matches Some(b) ==> {
                    &&& rp_wf(b.0)
                    &&& 0 <= fi < i
                    &&& face_hits(self.package, fi, ov, dv)
                    &&& rp_is(b.0, face_point(self.package, fi, ov, dv))
                    &&& (b.1 as int, b.2 as int) == face_t(self.package, fi, ov, dv)
                    &&& iabs(b.1 as int) <= 131941395333120 && iabs(b.2 as int)
                        <= 26388279066624
                    &&& b.0.x.d <= 105553116266496 && b.0.y.d <= 105553116266496 && b.0.z.d
                        <= 105553116266496
                    &&& iabs(b.0.x.n as int) <= 5188146770730811392
                    &&& iabs(b.0.y.n as int) <= 5188146770730811392
                    &&& iabs(b.0.z.n as int) <= 5188146770730811392
                    &&& forall|l: int|
                        0 <= l < i && #[trigger] face_hits(self.package, l, ov, dv)
                            ==> face_closer_eq(self.package, l, fi, ov, dv)
                },
                nearest is None ==> forall|j: int|
                    0 <= j < i ==> !#[trigger] face_hits(self.package, j, ov, dv),
                nearest is None <==> farthest is None,
            decreases 6 - i,
        {
            let f = faces[i];
            proof {
                assert(bounded3(f@[0].v(), 16384) && bounded3(f@[1].v(), 16384) && bounded3(
                    f@[2].v(),
                    16384,
                ) && bounded3(f@[3].v(), 16384));
            }
            let hit = intersect_square(f[0], f[1], f[2], f[3], ray_origin, ray_direction);
            match hit {
                Some(q) => {
                    // the ray parameter of this face's plane, in integers
                    let w0 = Wide3::from_vec3(&f[0]);
                    let w1 = Wide3::from_vec3(&f[1]);
                    let w2 = Wide3::from_vec3(&f[2]);
                    let e1 = w1.sub(&w0, Ghost(16384), Ghost(16384));
                    let e2 = w2.sub(&w0, Ghost(16384), Ghost(16384));
                    let nn = e1.cross(&e2, Ghost(32768), Ghost(32768));
                    let td = d.dot(&nn, Ghost(4096), Ghost(2147483648));
                    let pmo = w0.sub(&o, Ghost(16384), Ghost(4096));
                    let tn = pmo.dot(&nn, Ghost(20480), Ghost(2147483648));
                    proof {
                        assert(face_hits(self.package, i as int, ov, dv));
                        assert(rp_is(q, face_point(self.package, i as int, ov, dv)));
                        assert((tn as int, td as int) == face_t(self.package, i as int, ov, dv));
                    }
                    nearest = match nearest {
                        None => {
                            proof {
                                ni = i as int;
                            }
                            Some((q, tn, td))
                        },
                        Some(b) => {
                            let ca = abs128(tn, Ghost(131941395333120));
                            let cb = abs128(td, Ghost(26388279066624));
                            let ba = abs128(b.1, Ghost(131941395333120));
                            let bb = abs128(b.2, Ghost(26388279066624));
                            proof {
                                lemma_mul_bound(ca as int, 131941395333120, bb as int, 26388279066624);
                                lemma_mul_bound(ba as int, 131941395333120, cb as int, 26388279066624);
                            }
                            if ca * bb < ba * cb {
                                proof {
                                    let oldni = ni;
                                    assert forall|l: int|
                                        0 <= l < i + 1 && #[trigger] face_hits(
                                            self.package,
                                            l,
                                            ov,
                                            dv,
                                        ) implies face_closer_eq(
                                        self.package,
                                        i as int,
                                        l,
                                        ov,
                                        dv,
                                    ) by {
                                        if l < i {
                                            lemma_ratio_le_trans(
                                                iabs(face_t(self.package, i as int, ov, dv).0),
                                                iabs(face_t(self.package, i as int, ov, dv).1),
                                                iabs(face_t(self.package, oldni, ov, dv).0),
                                                iabs(face_t(self.package, oldni, ov, dv).1),
                                                iabs(face_t(self.package, l, ov, dv).0),
                                                iabs(face_t(self.package, l, ov, dv).1),
                                            );
                                        }
                                    }
                                    ni = i as int;
                                }
                                Some((q, tn, td))
                            } else {
                                Some(b)
                            }
                        },
                    };
                    farthest = match farthest {
                        None => {
                            proof {
                                fi = i as int;
                            }
                            Some((q, tn, td))
                        },
                        Some(b) => {
                            let ca = abs128(tn, Ghost(131941395333120));
                            let cb = abs128(td, Ghost(26388279066624));
                            let ba = abs128(b.1, Ghost(131941395333120));
                            let bb = abs128(b.2, Ghost(26388279066624));
                            proof {
                                lemma_mul_bound(ca as int, 131941395333120, bb as int, 26388279066624);
                                lemma_mul_bound(ba as int, 131941395333120, cb as int, 26388279066624);
                            }
                            if ca * bb >= ba * cb {
                                proof {
                                    let oldfi = fi;
                                    assert forall|l: int|
                                        0 <= l < i + 1 && #[trigger] face_hits(
                                            self.package,
                                            l,
                                            ov,
                                            dv,
                                        ) implies face_closer_eq(
                                        self.package,
                                        l,
                                        i as int,
                                        ov,
                                        dv,
                                    ) by {
                                        if l < i {
                                            lemma_ratio_le_trans(
                                                iabs(face_t(self.package, l, ov, dv).0),
                                                iabs(face_t(self.package, l, ov, dv).1),
                                                iabs(face_t(self.package, oldfi, ov, dv).0),
                                                iabs(face_t(self.package, oldfi, ov, dv).1),
                                                iabs(face_t(self.package, i as int, ov, dv).0),
                                                iabs(face_t(self.package, i as int, ov, dv).1),
                                            );
                                        }
                                    }
                                    fi = i as int;
                                }
                                Some((q, tn, td))
                            } else {
                                Some(b)
                            }
                        },
                    };
                },
                None => {},
            }
            i += 1;
        }
        match (nearest, farthest) {
            (Some(bi), Some(bo)) => {
                let in_key = match self._compute_key(&bi.0) {
                    Some(v) => v,
                    None => {
                        proof {
                            assert(false);
                        }
                        return None;
                    },
                };
                let out_key = match self._compute_key(&bo.0) {
                    Some(v) => v,
                    None => {
                        proof {
                            assert(false);
                        }
                        return None;
                    },
                };
                Some(((in_key, bi.0), (out_key, bo.0)))
            },
            _ => None,
        }
    }

    /// The first triangle hit found along the ray's walk through the grid,
    /// as the exact hit point and the triangle's stored normal.
    ///
    /// The walk visits the cells the ray crosses between its entry into and
    /// exit from the bounding box; the first cell whose registered triangles
    /// yield a hit decides, with the hit nearest to the origin (by squared
    /// distance) within that cell. A triangle that spans several cells can
    /// be found through an earlier cell than the one holding its nearest
    /// intersection, so this is not a global nearest-hit guarantee. No hit
    /// anywhere along the walk, a ray missing the box entirely, or a value
    /// leaving the representable range all yield no intersection.
    pub fn intersect(&self, ray_origin: Vec3, ray_direction: Vec3) -> (r: Option<
        (RatPoint, Vec3),
    >)
        requires
            mesh_wf(*self),
            bounded3(ray_origin.v(), MESH_LIMIT as int),
            bounded3(ray_direction.v(), MESH_LIMIT as int),
        ensures
            r matches Some(h) ==> rp_wf(h.0) && exists|i: int|
                0 <= i < self.triangles@.len() && mesh_tri_hit(
                    #[trigger] self.triangles@[i],
                    ray_origin.v(),
                    ray_direction.v(),
                    h.0,
                ) && h.1 == self.triangles@[i].normal,
            (forall|i: int|
                0 <= i < 6 ==> !#[trigger] face_hits(
                    self.package,
                    i,
                    (2 * ray_origin.x, 2 * ray_origin.y, 2 * ray_origin.z),
                    (2 * ray_direction.x, 2 * ray_direction.y, 2 * ray_direction.z),
                )) ==> r is None,
    {
        let o2 = Vec3::new(2 * ray_origin.x, 2 * ray_origin.y, 2 * ray_origin.z);
        let d2 = Vec3::new(2 * ray_direction.x, 2 * ray_direction.y, 2 * ray_direction.z);
        let hp = match self._hit_package(o2, d2) {
            Some(v) => v,
            None => {
                return None;
            },
        };
        let (in_pair, out_pair) = hp;
        let sp_in = match sub_point_int(&in_pair.1, self.package.bound_min) {
            Some(v) => v,
            None => {
                return None;
            },
        };
        let sp_out = match sub_point_int(&out_pair.1, self.package.bound_min) {
            Some(v) => v,
            None => {
                return None;
            },
        };
        let mut path = Path::new(
            in_pair.0,
            sp_in,
            out_pair.0,
            sp_out,
            2 * self.unit,
            self.dx,
            self.dy,
            self.dz,
        );
        let mut found = false;
        let mut best_pt: RatPoint = RatPoint::from_ints(0, 0, 0);
        let mut best_nrm: Vec3 = Vec3::new(0, 0, 0);
        loop
            invariant
                mesh_wf(*self),
                bounded3(ray_origin.v(), MESH_LIMIT as int),
                bounded3(ray_direction.v(), MESH_LIMIT as int),
                path_wf(path),
                found ==> rp_wf(best_pt) && exists|i: int|
                    0 <= i < self.triangles@.len() && mesh_tri_hit(
                        #[trigger] self.triangles@[i],
                        ray_origin.v(),
                        ray_direction.v(),
                        best_pt,
                    ) && best_nrm == self.triangles@[i].normal,
            decreases path_measure(path),
        {
            let more = path.next();
            if !more {
                break ;
            }
            let key = path.current_key;
            if self.tree.contains_key(&key) {
                let list = self.tree.get(&key);
                let mut min_d: Option<Rat> = None;
                let mut j: usize = 0;
                while j < list.len()
                    invariant
                        mesh_wf(*self),
                        bounded3(ray_origin.v(), MESH_LIMIT as int),
                        bounded3(ray_direction.v(), MESH_LIMIT as int),
                        j <= list.len(),
                        list@ == self.tree.values@[self.tree.keys@[pack_key(
                            key[0] as int,
                            key[1] as int,
                            key[2] as int,
                        ) as u128] as int]@,
                        self.tree.keys@.contains_key(pack_key(
                            key[0] as int,
                            key[1] as int,
                            key[2] as int,
                        ) as u128),
                        min_d matches Some(d) ==> rat_wf(d),
                        found ==> rp_wf(best_pt) && exists|i: int|
                            0 <= i < self.triangles@.len() && mesh_tri_hit(
                                #[trigger] self.triangles@[i],
                                ray_origin.v(),
                                ray_direction.v(),
                                best_pt,
                            ) && best_nrm == self.triangles@[i].normal,
                    decreases list.len() - j,
                {
                    let idx = list[j];
                    proof {
                        assert(self.tree.values@[self.tree.keys@[pack_key(
                            key[0] as int,
                            key[1] as int,
                            key[2] as int,
                        ) as u128] as int]@[j as int] < self.triangles@.len());
                        assert(tri_bounded(self.triangles@[idx as int], MESH_LIMIT as int));
                    }
                    let t = self.triangles[idx];
                    let i2t = intersect_triangle(t.p1, t.p2, t.p3, ray_origin, ray_direction);
                    match i2t {
                        Some(x) => {
                            let ds = match dist_sq(&x, ray_origin) {
                                Some(v) => v,
                                None => {
                                    return None;
                                },
                            };
                            let better = match &min_d {
                                None => true,
                                Some(md) => {
                                    match ds.lt(md) {
                                        Some(v) => v,
                                        None => {
                                            return None;
                                        },
                                    }
                                },
                            };
                            if better {
                                min_d = Some(ds);
                                best_pt = x;
                                best_nrm = t.normal;
                                found = true;
                                proof {
                                    assert(mesh_tri_hit(
                                        self.triangles@[idx as int],
                                        ray_origin.v(),
                                        ray_direction.v(),
                                        best_pt,
                                    ));
                                }
                            }
                        },
                        None => {},
                    }
                    j += 1;
                }
            }
            if found {
                break ;
            }
        }
        if found {
            Some((best_pt, best_nrm))
        } else {
            None
        }
    }
}

/// Cell coordinate of one component: floor of the offset from the box
/// corner divided by the cell edge, clamped into the grid.
fn compute_key_c(v: &Rat, bmin: i64, unit2: i64, dim: u32) -> (r: Option<u32>)
    requires
        rat_wf(*v),
        unit2 >= 1,
        dim >= 1,
    ensures
        r matches Some(k) ==> k as int == s_compute_key(
            qv(*v),
            bmin as int,
            unit2 as int,
            dim as int - 1,
        ),
        v.d <= 0x1000000000000000 && iabs(v.n as int) <= 0x4000000000000000000 && -16384 <= bmin
            <= 16384 && unit2 <= 16384 ==> r is Some,
{
    proof {
        if v.d <= 0x1000000000000000 && iabs(v.n as int) <= 0x4000000000000000000 && -16384
            <= bmin <= 16384 && unit2 <= 16384 {
            lemma_mul_bound(bmin as int, 16384, v.d as int, 0x1000000000000000);
        }
    }
    let diff = match v.sub(&Rat::from_int(bmin)) {
        Some(d) => d,
        None => {
            return None;
        },
    };
    proof {
        if v.d <= 0x1000000000000000 && iabs(v.n as int) <= 0x4000000000000000000 && -16384
            <= bmin <= 16384 && unit2 <= 16384 {
            assert(diff.d <= 0x1000000000000000);
            lemma_mul_bound(diff.d as int, 0x1000000000000000, unit2 as int, 16384);
        }
    }
    let fb = match diff.floor_by(unit2) {
        Some(f) => f,
        None => {
            return None;
        },
    };
    let q = fb.0;
    proof {
        crate::num::lemma_qfloor_congr(qv(diff), qsub(qv(*v), (bmin as int, 1int)), unit2 as int);
    }
    if q < 0 {
        Some(0)
    } else if q > (dim - 1) as i128 {
        Some(dim - 1)
    } else {
        Some(q as u32)
    }
}

/// Transitivity of the cross-multiplied ratio order on nonnegative
/// magnitudes with a positive middle denominator.
proof fn lemma_ratio_le_trans(a1: int, a2: int, b1: int, b2: int, c1: int, c2: int)
    requires
        a1 >= 0,
        b1 >= 0,
        c1 >= 0,
        a2 >= 0,
        c2 >= 0,
        b2 >= 1,
        a1 * b2 <= b1 * a2,
        b1 * c2 <= c1 * b2,
    ensures
        a1 * c2 <= c1 * a2,
{
    assert(a1 * c2 <= c1 * a2) by (nonlinear_arith)
        requires
            a1 >= 0,
            b1 >= 0,
            c1 >= 0,
            a2 >= 0,
            c2 >= 0,
            b2 >= 1,
            a1 * b2 <= b1 * a2,
            b1 * c2 <= c1 * b2,
    ;
}

/// Magnitude of a bounded wide integer.
fn abs128(x: i128, Ghost(k): Ghost<int>) -> (r: i128)
    requires
        -k <= x as int <= k,
        k < i128::MAX as int,
    ensures
        r as int == iabs(x as int),
        0 <= r as int <= k,
{
    if x >= 0 {
        x
    } else {
        -x
    }
}

/// A vertex in doubled coordinates, relative to the expanded box corner.
fn shift_vertex(v: Vec3, b2min: Vec3) -> (r: Vec3)
    requires
        bounded3(v.v(), MESH_LIMIT as int),
        bounded3(b2min.v(), 12288),
    ensures
        r.v() == s_sub((2 * v.x, 2 * v.y, 2 * v.z), b2min.v()),
        bounded3(r.v(), 16384),
{
    Vec3::new(2 * v.x - b2min.x, 2 * v.y - b2min.y, 2 * v.z - b2min.z)
}

/// Registers a triangle index in a cell, clamped into the grid, opening the
/// cell's slot first if it has none yet. Existing registrations are kept.
fn register_cell(
    tree: &mut Tree,
    key: [u32; 3],
    index: usize,
    dx: u32,
    dy: u32,
    dz: u32,
    Ghost(n): Ghost<int>,
)
    requires
        tree_wf(*old(tree)),
        tree_bounded(*old(tree), n),
        tree_injective(*old(tree)),
        tree_nodup(*old(tree)),
        tree_in_grid(*old(tree), dx as int, dy as int, dz as int),
        index < n,
        dx >= 1 && dy >= 1 && dz >= 1,
    ensures
        tree_wf(*final(tree)),
        tree_bounded(*final(tree), n),
        tree_injective(*final(tree)),
        tree_nodup(*final(tree)),
        tree_in_grid(*final(tree), dx as int, dy as int, dz as int),
        forall|a: int, b: int, c: int, v: usize|
            #[trigger] tree_has(*old(tree), a, b, c, v) ==> tree_has(*final(tree), a, b, c, v),
        tree_has(
            *final(tree),
            grid_clamp(key[0] as int, dx as int),
            grid_clamp(key[1] as int, dy as int),
            grid_clamp(key[2] as int, dz as int),
            index,
        ),
{
    let key: [u32; 3] = [
        if key[0] >= dx {
            dx - 1
        } else {
            key[0]
        },
        if key[1] >= dy {
            dy - 1
        } else {
            key[1]
        },
        if key[2] >= dz {
            dz - 1
        } else {
            key[2]
        },
    ];
    if !tree.contains_key(&key) {
        tree.insert_key(key);
        proof {
            let ghost pk = pack_key(key[0] as int, key[1] as int, key[2] as int) as u128;
            assert forall|j: int, l: int|
                0 <= j < tree.values@.len() && 0 <= l < tree.values@[j]@.len() implies #[trigger] tree.values@[j]@[l] < n by {
                if j < old(tree).values@.len() {
                    assert(tree.values@[j] == old(tree).values@[j]);
                } else {
                    assert(tree.values@[j]@.len() == 0);
                }
            }
            assert forall|j: int, l1: int, l2: int|
                0 <= j < tree.values@.len() && 0 <= l1 < l2 < tree.values@[j]@.len()
                    implies #[trigger] tree.values@[j]@[l1] != #[trigger] tree.values@[j]@[l2] by {
                assert(j < old(tree).values@.len());
                assert(tree.values@[j] == old(tree).values@[j]);
            }
            assert forall|a: int, b: int, c: int, v: usize|
                #[trigger] tree_has(*old(tree), a, b, c, v) implies tree_has(
                *tree,
                a,
                b,
                c,
                v,
            ) by {
                let pk2 = pack_key(a, b, c) as u128;
                assert(pk2 != pk);
                assert(tree.keys@[pk2] == old(tree).keys@[pk2]);
                assert(tree.values@[tree.keys@[pk2] as int] == old(tree).values@[old(
                    tree,
                ).keys@[pk2] as int]);
            }
            assert forall|k: u128| #[trigger] tree.keys@.contains_key(k) implies exists|
                a: int,
                b: int,
                c: int,
            |
                0 <= a < dx as int && 0 <= b < dy as int && 0 <= c < dz as int && k == pack_key(
                    a,
                    b,
                    c,
                ) by {
                if k == pk {
                    assert(0 <= key[0] < dx as int && 0 <= key[1] < dy as int && 0 <= key[2]
                        < dz as int && pk == pack_key(key[0] as int, key[1] as int, key[2] as int));
                } else {
                    assert(old(tree).keys@.contains_key(k));
                }
            }
            assert forall|k1: u128, k2: u128|
                tree.keys@.contains_key(k1) && tree.keys@.contains_key(k2) && k1 != k2
                    implies #[trigger] tree.keys@[k1] != #[trigger] tree.keys@[k2] by {
                if k1 == pk {
                    assert(tree.keys@[k1] == old(tree).values@.len());
                    assert(old(tree).keys@.contains_key(k2));
                    assert(tree.keys@[k2] == old(tree).keys@[k2]);
                    assert(old(tree).keys@[k2] < old(tree).values@.len());
                } else if k2 == pk {
                    assert(tree.keys@[k2] == old(tree).values@.len());
                    assert(old(tree).keys@.contains_key(k1));
                    assert(tree.keys@[k1] == old(tree).keys@[k1]);
                    assert(old(tree).keys@[k1] < old(tree).values@.len());
                } else {
                    assert(old(tree).keys@.contains_key(k1) && old(tree).keys@.contains_key(k2));
                    assert(tree.keys@[k1] == old(tree).keys@[k1]);
                    assert(tree.keys@[k2] == old(tree).keys@[k2]);
                    assert(old(tree).keys@[k1] != old(tree).keys@[k2]);
                }
            }
        }
    }
    let ghost mid = *tree;
    tree.insert(&key, index);
    proof {
        let packed = pack_key(key[0] as int, key[1] as int, key[2] as int) as u128;
        let slot = mid.keys@[packed] as int;
        assert forall|j: int, l: int|
            0 <= j < tree.values@.len() && 0 <= l < tree.values@[j]@.len() implies #[trigger] tree.values@[j]@[l] < n by {
            if j != slot {
                assert(tree.values@[j] == mid.values@[j]);
            } else {
                if l < mid.values@[slot]@.len() {
                    assert(tree.values@[j]@[l] == mid.values@[slot]@[l]);
                } else {
                    assert(tree.values@[j]@[l] == index);
                }
            }
        }
        assert forall|j: int, l1: int, l2: int|
            0 <= j < tree.values@.len() && 0 <= l1 < l2 < tree.values@[j]@.len()
                implies #[trigger] tree.values@[j]@[l1] != #[trigger] tree.values@[j]@[l2] by {
            if j != slot {
                assert(tree.values@[j] == mid.values@[j]);
            } else {
                if l2 < mid.values@[slot]@.len() {
                    assert(tree.values@[j]@[l1] == mid.values@[slot]@[l1]);
                    assert(tree.values@[j]@[l2] == mid.values@[slot]@[l2]);
                } else {
                    // the new last element was not contained before
                    assert(tree.values@[j]@[l2] == index);
                    assert(tree.values@[j]@[l1] == mid.values@[slot]@[l1]);
                    assert(mid.values@[slot]@.contains(mid.values@[slot]@[l1]));
                }
            }
        }
        assert forall|a: int, b: int, c: int, v: usize|
            #[trigger] tree_has(mid, a, b, c, v) implies tree_has(*tree, a, b, c, v) by {
            let pk2 = pack_key(a, b, c) as u128;
            if mid.keys@[pk2] as int == slot {
                assert(tree.values@[slot]@.contains(v)) by {
                    let l = choose|l: int|
                        0 <= l < mid.values@[slot]@.len() && mid.values@[slot]@[l] == v;
                    if tree.values@[slot]@ == mid.values@[slot]@.push(index) {
                        assert(tree.values@[slot]@[l] == v);
                    } else {
                        assert(tree.values@[slot]@[l] == v);
                    }
                }
            } else {
                assert(tree.values@[mid.keys@[pk2] as int] == mid.values@[mid.keys@[pk2] as int]);
            }
        }
        assert(tree.values@[slot]@.contains(index)) by {
            if !mid.values@[slot]@.contains(index) {
                assert(tree.values@[slot]@ == mid.values@[slot]@.push(index));
                assert(tree.values@[slot]@[mid.values@[slot]@.len() as int] == index);
            }
        }
        assert(tree_has(
            *tree,
            grid_clamp(key[0] as int, dx as int),
            grid_clamp(key[1] as int, dy as int),
            grid_clamp(key[2] as int, dz as int),
            index,
        ));
    }
}

} // verus!
