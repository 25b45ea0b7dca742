//! Integer 3-D vectors and exact rational points.
//!
//! Coordinates are integer-scaled: a caller maps its world units onto a fixed
//! grid of integers. All vector arithmetic is carried out in `i128` with
//! explicit bound bookkeeping, so overflow is ruled out by proof.

use vstd::prelude::*;
use crate::num::{Rat, rat_wf, qv, qeq};

verus! {

/// A 3-D vector (or point) with integer-scaled coordinates.
#[derive(Clone, Copy, Debug, PartialEq, Eq, Structural)]
pub struct Vec3 {
    pub x: i64,
    pub y: i64,
    pub z: i64,
}

/// A 3-D vector with wide components, for intermediate products.
#[derive(Clone, Copy)]
pub(crate) struct Wide3 {
    pub x: i128,
    pub y: i128,
    pub z: i128,
}

/// A 3-D point with exact rational coordinates.
#[derive(Clone, Copy, Debug)]
pub struct RatPoint {
    pub x: Rat,
    pub y: Rat,
    pub z: Rat,
}

/// Well-formedness of a rational point.
pub open spec fn rp_wf(p: RatPoint) -> bool {
    rat_wf(p.x) && rat_wf(p.y) && rat_wf(p.z)
}

/// The spec value of a rational point: three numerator/denominator pairs.
pub open spec fn rpv(p: RatPoint) -> ((int, int), (int, int), (int, int)) {
    (qv(p.x), qv(p.y), qv(p.z))
}

/// Componentwise rational equality of a point with a triple of pairs.
pub open spec fn rp_is(p: RatPoint, t: ((int, int), (int, int), (int, int))) -> bool {
    qeq(qv(p.x), t.0) && qeq(qv(p.y), t.1) && qeq(qv(p.z), t.2)
}

impl Vec3 {
    /// The spec value of the vector, as a triple of unbounded integers.
    pub open spec fn v(self) -> (int, int, int) {
        (self.x as int, self.y as int, self.z as int)
    }

    /// Builds a vector from its coordinates.
    pub fn new(x: i64, y: i64, z: i64) -> (r: Vec3)
        ensures
            r.v() == (x as int, y as int, z as int),
    {
        Vec3 { x, y, z }
    }
}

impl RatPoint {
    /// A rational point with integer coordinates.
    pub fn from_ints(x: i64, y: i64, z: i64) -> (r: RatPoint)
        ensures
            rp_wf(r),
            rpv(r) == ((x as int, 1int), (y as int, 1int), (z as int, 1int)),
    {
        RatPoint { x: Rat::from_int(x), y: Rat::from_int(y), z: Rat::from_int(z) }
    }
}

/// All three components lie within `[-k, k]`.
pub open spec fn bounded3(v: (int, int, int), k: int) -> bool {
    &&& -k <= v.0 <= k
    &&& -k <= v.1 <= k
    &&& -k <= v.2 <= k
}

/// Componentwise sum.
pub open spec fn s_add(a: (int, int, int), b: (int, int, int)) -> (int, int, int) {
    (a.0 + b.0, a.1 + b.1, a.2 + b.2)
}

/// Componentwise difference.
pub open spec fn s_sub(a: (int, int, int), b: (int, int, int)) -> (int, int, int) {
    (a.0 - b.0, a.1 - b.1, a.2 - b.2)
}

/// Scalar product with an integer.
pub open spec fn s_scale(c: int, a: (int, int, int)) -> (int, int, int) {
    (c * a.0, c * a.1, c * a.2)
}

/// Dot product.
pub open spec fn s_dot(a: (int, int, int), b: (int, int, int)) -> int {
    a.0 * b.0 + a.1 * b.1 + a.2 * b.2
}

/// Cross product.
pub open spec fn s_cross(a: (int, int, int), b: (int, int, int)) -> (int, int, int) {
    (a.1 * b.2 - a.2 * b.1, a.2 * b.0 - a.0 * b.2, a.0 * b.1 - a.1 * b.0)
}

/// Determinant of the 3x3 matrix with columns `a`, `b`, `c`
/// (scalar triple product).
pub open spec fn s_det3(a: (int, int, int), b: (int, int, int), c: (int, int, int)) -> int {
    s_dot(a, s_cross(b, c))
}

/// A product of values in `[-ka, ka]` and `[-kb, kb]` lies in
/// `[-ka*kb, ka*kb]`.
pub(crate) proof fn lemma_mul_bound(a: int, ka: int, b: int, kb: int)
    requires
        -ka <= a <= ka,
        -kb <= b <= kb,
    ensures
        -(ka * kb) <= a * b <= ka * kb,
        ka * kb >= 0,
{
    assert(-(ka * kb) <= a * b <= ka * kb && ka * kb >= 0) by (nonlinear_arith)
        requires
            -ka <= a <= ka,
            -kb <= b <= kb,
    ;
}

impl Wide3 {
    /// The spec value, as a triple of unbounded integers.
    pub(crate) open spec fn v(self) -> (int, int, int) {
        (self.x as int, self.y as int, self.z as int)
    }

    /// Widens an integer vector.
    pub(crate) fn from_vec3(a: &Vec3) -> (r: Wide3)
        ensures
            r.v() == a.v(),
    {
        Wide3 { x: a.x as i128, y: a.y as i128, z: a.z as i128 }
    }

    /// Narrows to an integer vector; the bound keeps it exact.
    pub(crate) fn to_vec3(&self, Ghost(k): Ghost<int>) -> (r: Vec3)
        requires
            bounded3(self.v(), k),
            k <= i64::MAX as int,
        ensures
            r.v() == self.v(),
    {
        Vec3 { x: self.x as i64, y: self.y as i64, z: self.z as i64 }
    }

    /// Componentwise sum with overflow excluded by the bounds.
    pub(crate) fn add(&self, b: &Wide3, Ghost(ka): Ghost<int>, Ghost(kb): Ghost<int>) -> (r:
        Wide3)
        requires
            bounded3(self.v(), ka),
            bounded3(b.v(), kb),
            ka >= 0,
            kb >= 0,
            ka + kb <= i128::MAX as int,
        ensures
            r.v() == s_add(self.v(), b.v()),
            bounded3(r.v(), ka + kb),
    {
        Wide3 { x: self.x + b.x, y: self.y + b.y, z: self.z + b.z }
    }

    /// Componentwise difference with overflow excluded by the bounds.
    pub(crate) fn sub(&self, b: &Wide3, Ghost(ka): Ghost<int>, Ghost(kb): Ghost<int>) -> (r:
        Wide3)
        requires
            bounded3(self.v(), ka),
            bounded3(b.v(), kb),
            ka >= 0,
            kb >= 0,
            ka + kb <= i128::MAX as int,
        ensures
            r.v() == s_sub(self.v(), b.v()),
            bounded3(r.v(), ka + kb),
    {
        Wide3 { x: self.x - b.x, y: self.y - b.y, z: self.z - b.z }
    }

    /// Scalar multiple with overflow excluded by the bounds.
    pub(crate) fn scale(&self, c: i128, Ghost(ka): Ghost<int>, Ghost(kc): Ghost<int>) -> (r:
        Wide3)
        requires
            bounded3(self.v(), ka),
            -kc <= c as int <= kc,
            ka >= 0,
            kc >= 0,
            kc * ka <= i128::MAX as int,
        ensures
            r.v() == s_scale(c as int, self.v()),
            bounded3(r.v(), kc * ka),
    {
        proof {
            lemma_mul_bound(c as int, kc, self.x as int, ka);
            lemma_mul_bound(c as int, kc, self.y as int, ka);
            lemma_mul_bound(c as int, kc, self.z as int, ka);
        }
        Wide3 { x: c * self.x, y: c * self.y, z: c * self.z }
    }

    /// Dot product with overflow excluded by the bounds.
    pub(crate) fn dot(&self, b: &Wide3, Ghost(ka): Ghost<int>, Ghost(kb): Ghost<int>) -> (r:
        i128)
        requires
            bounded3(self.v(), ka),
            bounded3(b.v(), kb),
            ka >= 0,
            kb >= 0,
            3 * (ka * kb) <= i128::MAX as int,
        ensures
            r == s_dot(self.v(), b.v()),
            -(3 * (ka * kb)) <= r <= 3 * (ka * kb),
    {
        proof {
            lemma_mul_bound(self.x as int, ka, b.x as int, kb);
            lemma_mul_bound(self.y as int, ka, b.y as int, kb);
            lemma_mul_bound(self.z as int, ka, b.z as int, kb);
        }
        self.x * b.x + self.y * b.y + self.z * b.z
    }

    /// Cross product with overflow excluded by the bounds.
    pub(crate) fn cross(&self, b: &Wide3, Ghost(ka): Ghost<int>, Ghost(kb): Ghost<int>) -> (r:
        Wide3)
        requires
            bounded3(self.v(), ka),
            bounded3(b.v(), kb),
            ka >= 0,
            kb >= 0,
            2 * (ka * kb) <= i128::MAX as int,
        ensures
            r.v() == s_cross(self.v(), b.v()),
            bounded3(r.v(), 2 * (ka * kb)),
    {
        proof {
            lemma_mul_bound(self.x as int, ka, b.x as int, kb);
            lemma_mul_bound(self.x as int, ka, b.y as int, kb);
            lemma_mul_bound(self.x as int, ka, b.z as int, kb);
            lemma_mul_bound(self.y as int, ka, b.x as int, kb);
            lemma_mul_bound(self.y as int, ka, b.y as int, kb);
            lemma_mul_bound(self.y as int, ka, b.z as int, kb);
            lemma_mul_bound(self.z as int, ka, b.x as int, kb);
            lemma_mul_bound(self.z as int, ka, b.y as int, kb);
            lemma_mul_bound(self.z as int, ka, b.z as int, kb);
        }
        Wide3 {
            x: self.y * b.z - self.z * b.y,
            y: self.z * b.x - self.x * b.z,
            z: self.x * b.y - self.y * b.x,
        }
    }

    /// Determinant of the matrix with columns `self`, `b`, `c`.
    pub(crate) fn det3(
        &self,
        b: &Wide3,
        c: &Wide3,
        Ghost(ka): Ghost<int>,
        Ghost(kb): Ghost<int>,
        Ghost(kc): Ghost<int>,
    ) -> (r: i128)
        requires
            bounded3(self.v(), ka),
            bounded3(b.v(), kb),
            bounded3(c.v(), kc),
            ka >= 0,
            kb >= 0,
            kc >= 0,
            2 * (kb * kc) <= i128::MAX as int,
            3 * (ka * (2 * (kb * kc))) <= i128::MAX as int,
        ensures
            r == s_det3(self.v(), b.v(), c.v()),
            -(3 * (ka * (2 * (kb * kc)))) <= r <= 3 * (ka * (2 * (kb * kc))),
    {
        let w = b.cross(c, Ghost(kb), Ghost(kc));
        self.dot(&w, Ghost(ka), Ghost(2 * (kb * kc)))
    }
}

} // verus!
