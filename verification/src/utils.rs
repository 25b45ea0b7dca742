//! Exact ray/plane, ray/triangle and ray/quad intersection predicates.
//!
//! The ray is `origin + t * direction`; a plane hit exists exactly when the
//! denominator `direction . normal` is nonzero. Containment in a triangle is
//! decided by barycentric coordinates obtained from an integer 3x3 linear
//! system by Cramer's rule, so every comparison is exact. Coordinate limits
//! on the inputs rule overflow out; the ghost literals along the
//! computations track the worst-case magnitude of every intermediate value.

use vstd::prelude::*;
use vstd::arithmetic::mul::{
    lemma_mul_is_distributive_sub, lemma_mul_is_distributive_add,
    lemma_mul_is_distributive_add_other_way, lemma_mul_is_commutative, lemma_mul_is_associative,
    lemma_mul_unary_negation, lemma_mul_basics,
};
use crate::num::{Rat, rat_wf, qv, qeq, iabs};
use crate::vec3::{
    Vec3, Wide3, RatPoint, rp_wf, rp_is, bounded3, s_add, s_sub, s_scale, s_dot, s_cross,
    s_det3, lemma_mul_bound,
};

verus! {

/// Largest coordinate magnitude `intersect_plane` accepts (2^40).
pub const PLANE_LIMIT: i64 = 1099511627776;

/// Largest coordinate magnitude `intersect_triangle` accepts (2^16).
pub const TRI_LIMIT: i64 = 65536;

/// Largest coordinate magnitude `intersect_square` accepts (2^14).
pub const QUAD_LIMIT: i64 = 16384;

/// Denominator of the ray parameter at the plane hit: `direction . normal`.
pub open spec fn plane_td(dv: (int, int, int), nv: (int, int, int)) -> int {
    s_dot(dv, nv)
}

/// Numerator of the ray parameter at the plane hit: `(point - origin) . normal`.
pub open spec fn plane_tn(pv: (int, int, int), ov: (int, int, int), nv: (int, int, int)) -> int {
    s_dot(s_sub(pv, ov), nv)
}

/// The point `origin + (tn / td) * direction`, componentwise as rational
/// pairs over the common denominator `td`.
pub open spec fn s_ray_point(ov: (int, int, int), dv: (int, int, int), tn: int, td: int) -> (
    (int, int),
    (int, int),
    (int, int),
) {
    ((ov.0 * td + tn * dv.0, td), (ov.1 * td + tn * dv.1, td), (ov.2 * td + tn * dv.2, td))
}

/// The normal of the triangle `(p1, p2, p3)`: `(p2 - p1) x (p3 - p1)`.
pub open spec fn tri_normal(p1: (int, int, int), p2: (int, int, int), p3: (int, int, int)) -> (
    int,
    int,
    int,
) {
    s_cross(s_sub(p2, p1), s_sub(p3, p1))
}

/// The fraction `num / den` lies in `[0, 1]` (`den` of either sign).
pub open spec fn frac_in_unit(num: int, den: int) -> bool {
    if den >= 0 {
        0 <= num <= den
    } else {
        den <= num <= 0
    }
}

/// Magnitude of an integer.
pub open spec fn s_abs(x: int) -> int {
    if x >= 0 {
        x
    } else {
        -x
    }
}

/// Barycentric determinants of the hit of a ray with the plane of the
/// triangle `(p1, p2, p3)`, relative to `p3`:
/// `(u_num, v_num, den)` with `u = u_num / den` and `v = v_num / den`.
pub open spec fn tri_bary(
    p1: (int, int, int),
    p2: (int, int, int),
    p3: (int, int, int),
    ov: (int, int, int),
    dv: (int, int, int),
) -> (int, int, int) {
    let n = tri_normal(p1, p2, p3);
    let td = plane_td(dv, n);
    let tn = plane_tn(p1, ov, n);
    let tnum = s_sub(s_add(s_scale(td, ov), s_scale(tn, dv)), s_scale(td, p3));
    let u1 = s_sub(p1, p3);
    let u2 = s_sub(p2, p3);
    let w = s_cross(u1, u2);
    (s_det3(tnum, u2, w), s_det3(u1, tnum, w), td * s_dot(w, w))
}

/// The plane hit lies inside the triangle: `0 <= u <= 1`, `0 <= v <= 1`
/// and `u + v <= 1`.
pub open spec fn tri_contains(
    p1: (int, int, int),
    p2: (int, int, int),
    p3: (int, int, int),
    ov: (int, int, int),
    dv: (int, int, int),
) -> bool {
    let b = tri_bary(p1, p2, p3, ov, dv);
    frac_in_unit(b.0, b.2) && frac_in_unit(b.1, b.2) && frac_in_unit(b.0 + b.1, b.2)
}

/// Barycentric determinants for the quad test, in coordinates scaled by four
/// so that the quad's centroid is integral: basis `p1 - c`, `p2 - c` around
/// the centroid `c`, target the plane hit.
pub open spec fn quad_bary(
    p1: (int, int, int),
    p2: (int, int, int),
    p3: (int, int, int),
    p4: (int, int, int),
    ov: (int, int, int),
    dv: (int, int, int),
) -> (int, int, int) {
    let n = tri_normal(p1, p2, p3);
    let td = plane_td(dv, n);
    let tn = plane_tn(p1, ov, n);
    let c4 = s_add(s_add(p1, p2), s_add(p3, p4));
    let tnum = s_sub(
        s_add(s_scale(td, s_scale(4, ov)), s_scale(tn, s_scale(4, dv))),
        s_scale(td, c4),
    );
    let u1 = s_sub(s_scale(4, p1), c4);
    let u2 = s_sub(s_scale(4, p2), c4);
    let w = s_cross(u1, u2);
    (s_det3(tnum, u2, w), s_det3(u1, tnum, w), td * s_dot(w, w))
}

/// The plane hit passes the quad's diamond test around its centroid:
/// `|u| <= 1`, `|v| <= 1` and `|u| + |v| <= 1`. Exact for the axis-aligned
/// rectangles it is used on.
pub open spec fn quad_contains(
    p1: (int, int, int),
    p2: (int, int, int),
    p3: (int, int, int),
    p4: (int, int, int),
    ov: (int, int, int),
    dv: (int, int, int),
) -> bool {
    let b = quad_bary(p1, p2, p3, p4, ov, dv);
    &&& b.2 != 0
    &&& s_abs(b.0) <= s_abs(b.2)
    &&& s_abs(b.1) <= s_abs(b.2)
    &&& s_abs(b.0) + s_abs(b.1) <= s_abs(b.2)
}

/// A rational pair keeps its value when numerator and denominator are both
/// negated.
proof fn lemma_qeq_neg(a: (int, int), x: int, y: int)
    requires
        qeq(a, (-x, -y)),
    ensures
        qeq(a, (x, y)),
{
    assert(a.0 * y == x * a.1) by (nonlinear_arith)
        requires
            a.0 * -y == -x * a.1,
    ;
}

/// Evaluates `origin + (tn / td) * direction` as an exact rational point
/// with a positive denominator.
fn ray_eval(
    o: &Wide3,
    d: &Wide3,
    tn: i128,
    td: i128,
    Ghost(ko): Ghost<int>,
    Ghost(kd): Ghost<int>,
    Ghost(ktn): Ghost<int>,
    Ghost(ktd): Ghost<int>,
) -> (p: RatPoint)
    requires
        td != 0,
        bounded3(o.v(), ko),
        bounded3(d.v(), kd),
        -ktn <= tn as int <= ktn,
        -ktd <= td as int <= ktd,
        ko >= 0,
        kd >= 0,
        ktn >= 0,
        ktd < i128::MAX as int,
        ktd * ko + ktn * kd < i128::MAX as int,
    ensures
        rp_wf(p),
        rp_is(p, s_ray_point(o.v(), d.v(), tn as int, td as int)),
        p.x.d <= ktd && p.y.d <= ktd && p.z.d <= ktd,
        iabs(p.x.n as int) <= ktd * ko + ktn * kd,
        iabs(p.y.n as int) <= ktd * ko + ktn * kd,
        iabs(p.z.n as int) <= ktd * ko + ktn * kd,
{
    proof {
        lemma_mul_bound(0, ktd, 0, ko);
        lemma_mul_bound(0, ktn, 0, kd);
    }
    let a = o.scale(td, Ghost(ko), Ghost(ktd));
    let b = d.scale(tn, Ghost(kd), Ghost(ktn));
    let num = a.add(&b, Ghost(ktd * ko), Ghost(ktn * kd));
    let x = rat_of_frac(num.x, td, Ghost(ktd * ko + ktn * kd));
    let y = rat_of_frac(num.y, td, Ghost(ktd * ko + ktn * kd));
    let z = rat_of_frac(num.z, td, Ghost(ktd * ko + ktn * kd));
    RatPoint { x, y, z }
}

/// A well-formed rational equal to `n / d` for a nonzero `d` of either sign.
fn rat_of_frac(n: i128, d: i128, Ghost(kn): Ghost<int>) -> (r: Rat)
    requires
        d != 0,
        d > i128::MIN,
        -kn <= n as int <= kn,
        kn < i128::MAX as int,
    ensures
        rat_wf(r),
        qeq(qv(r), (n as int, d as int)),
        r.d as int <= iabs(d as int),
        iabs(r.n as int) <= iabs(n as int),
{
    let (nn, dd): (i128, i128) = if d > 0 {
        (n, d)
    } else {
        (-n, -d)
    };
    let built = Rat::build(nn, dd);
    match built {
        Some(c) => {
            proof {
                if d < 0 {
                    lemma_qeq_neg(qv(c), n as int, d as int);
                }
            }
            c
        },
        None => {
            proof {
                assert(false);
            }
            Rat::from_int(0)
        },
    }
}

/// Intersection of a ray with the plane through `point` with normal
/// `normal`. Returns the hit exactly when the denominator
/// `ray_direction . normal` is nonzero; a zero denominator (ray parallel to
/// the plane, or degenerate data) yields no intersection.
pub fn intersect_plane(point: Vec3, normal: Vec3, ray_origin: Vec3, ray_direction: Vec3) -> (r:
    Option<RatPoint>)
    requires
        bounded3(point.v(), PLANE_LIMIT as int),
        bounded3(normal.v(), PLANE_LIMIT as int),
        bounded3(ray_origin.v(), PLANE_LIMIT as int),
        bounded3(ray_direction.v(), PLANE_LIMIT as int),
    ensures
        r is Some <==> plane_td(ray_direction.v(), normal.v()) != 0,
        r matches Some(q) ==> rp_wf(q) && rp_is(
            q,
            s_ray_point(
                ray_origin.v(),
                ray_direction.v(),
                plane_tn(point.v(), ray_origin.v(), normal.v()),
                plane_td(ray_direction.v(), normal.v()),
            ),
        ),
{
    let o = Wide3::from_vec3(&ray_origin);
    let d = Wide3::from_vec3(&ray_direction);
    let p = Wide3::from_vec3(&point);
    let n = Wide3::from_vec3(&normal);
    let td = d.dot(&n, Ghost(1099511627776), Ghost(1099511627776));
    if td == 0 {
        return None;
    }
    let pmo = p.sub(&o, Ghost(1099511627776), Ghost(1099511627776));
    let tn = pmo.dot(&n, Ghost(2199023255552), Ghost(1099511627776));
    Some(
        ray_eval(
            &o,
            &d,
            tn,
            td,
            Ghost(1099511627776),
            Ghost(1099511627776),
            Ghost(7253554917687775048237056),
            Ghost(3626777458843887524118528),
        ),
    )
}

/// Checks `0 <= num / den <= 1` exactly, for a denominator of either sign.
fn frac_in_unit_exec(num: i128, den: i128) -> (b: bool)
    ensures
        b == frac_in_unit(num as int, den as int),
{
    if den >= 0 {
        0 <= num && num <= den
    } else {
        den <= num && num <= 0
    }
}

/// Magnitude of a bounded `i128`.
fn abs_exec(x: i128, Ghost(k): Ghost<int>) -> (r: i128)
    requires
        -k <= x as int <= k,
        k < i128::MAX as int,
    ensures
        r == s_abs(x as int),
        0 <= r as int <= k,
{
    if x >= 0 {
        x
    } else {
        -x
    }
}

/// Intersection of a ray with the triangle `(p1, p2, p3)`: the hit of the
/// ray with the triangle's plane, if the ray is not parallel to it and the
/// hit's barycentric coordinates satisfy
/// `0 <= u <= 1`, `0 <= v <= 1`, `u + v <= 1`.
pub fn intersect_triangle(
    p1: Vec3,
    p2: Vec3,
    p3: Vec3,
    ray_origin: Vec3,
    ray_direction: Vec3,
) -> (r: Option<RatPoint>)
    requires
        bounded3(p1.v(), TRI_LIMIT as int),
        bounded3(p2.v(), TRI_LIMIT as int),
        bounded3(p3.v(), TRI_LIMIT as int),
        bounded3(ray_origin.v(), TRI_LIMIT as int),
        bounded3(ray_direction.v(), TRI_LIMIT as int),
    ensures
        r is Some <==> plane_td(ray_direction.v(), tri_normal(p1.v(), p2.v(), p3.v())) != 0
            && tri_contains(p1.v(), p2.v(), p3.v(), ray_origin.v(), ray_direction.v()),
        r matches Some(q) ==> rp_wf(q) && rp_is(
            q,
            s_ray_point(
                ray_origin.v(),
                ray_direction.v(),
                plane_tn(p1.v(), ray_origin.v(), tri_normal(p1.v(), p2.v(), p3.v())),
                plane_td(ray_direction.v(), tri_normal(p1.v(), p2.v(), p3.v())),
            ),
        ),
{
    let w1 = Wide3::from_vec3(&p1);
    let w2 = Wide3::from_vec3(&p2);
    let w3 = Wide3::from_vec3(&p3);
    let o = Wide3::from_vec3(&ray_origin);
    let d = Wide3::from_vec3(&ray_direction);
    let e1 = w2.sub(&w1, Ghost(65536), Ghost(65536));
    let e2 = w3.sub(&w1, Ghost(65536), Ghost(65536));
    let n = e1.cross(&e2, Ghost(131072), Ghost(131072));
    let td = d.dot(&n, Ghost(65536), Ghost(34359738368));
    if td == 0 {
        return None;
    }
    let pmo = w1.sub(&o, Ghost(65536), Ghost(65536));
    let tn = pmo.dot(&n, Ghost(131072), Ghost(34359738368));
    let oscale = o.scale(td, Ghost(65536), Ghost(6755399441055744));
    let dscale = d.scale(tn, Ghost(65536), Ghost(13510798882111488));
    let onum = oscale.add(&dscale, Ghost(442721857769029238784), Ghost(885443715538058477568));
    let cscale = w3.scale(td, Ghost(65536), Ghost(6755399441055744));
    let tnum = onum.sub(&cscale, Ghost(1328165573307087716352), Ghost(442721857769029238784));
    let u1 = w1.sub(&w3, Ghost(65536), Ghost(65536));
    let u2 = w2.sub(&w3, Ghost(65536), Ghost(65536));
    let w = u1.cross(&u2, Ghost(131072), Ghost(131072));
    let det_u = tnum.det3(
        &u2,
        &w,
        Ghost(1770887431076116955136),
        Ghost(131072),
        Ghost(34359738368),
    );
    let det_v = u1.det3(
        &tnum,
        &w,
        Ghost(131072),
        Ghost(1770887431076116955136),
        Ghost(34359738368),
    );
    let nn = w.dot(&w, Ghost(34359738368), Ghost(34359738368));
    proof {
        lemma_mul_bound(td as int, 6755399441055744, nn as int, 3541774862152233910272);
    }
    let den = td * nn;
    let inside = frac_in_unit_exec(det_u, den) && frac_in_unit_exec(det_v, den)
        && frac_in_unit_exec(det_u + det_v, den);
    if inside {
        Some(
            ray_eval(
                &o,
                &d,
                tn,
                td,
                Ghost(65536),
                Ghost(65536),
                Ghost(13510798882111488),
                Ghost(6755399441055744),
            ),
        )
    } else {
        None
    }
}

/// Rotating a triple product: `x * (y * z) == z * (x * y)`.
proof fn lemma_prod_rotate(x: int, y: int, z: int)
    ensures
        x * (y * z) == z * (x * y),
{
    lemma_mul_is_associative(x, y, z);
    lemma_mul_is_commutative(x * y, z);
}

/// Swapping the two outer factors: `x * (y * z) == y * (x * z)`.
proof fn lemma_prod_swap(x: int, y: int, z: int)
    ensures
        x * (y * z) == y * (x * z),
{
    lemma_mul_is_associative(x, y, z);
    lemma_mul_is_commutative(x, y);
    lemma_mul_is_associative(y, x, z);
}

/// A vector is orthogonal to its cross product with any other vector.
proof fn lemma_dot_cross_self(a: (int, int, int), b: (int, int, int))
    ensures
        s_dot(a, s_cross(a, b)) == 0,
        s_dot(b, s_cross(a, b)) == 0,
{
    let a0 = a.0;
    let a1 = a.1;
    let a2 = a.2;
    let b0 = b.0;
    let b1 = b.1;
    let b2 = b.2;
    lemma_mul_is_distributive_sub(a0, a1 * b2, a2 * b1);
    lemma_mul_is_distributive_sub(a1, a2 * b0, a0 * b2);
    lemma_mul_is_distributive_sub(a2, a0 * b1, a1 * b0);
    lemma_prod_swap(a0, a1, b2);
    lemma_prod_swap(a0, a2, b1);
    lemma_prod_swap(a1, a2, b0);
    lemma_mul_is_distributive_sub(b0, a1 * b2, a2 * b1);
    lemma_mul_is_distributive_sub(b1, a2 * b0, a0 * b2);
    lemma_mul_is_distributive_sub(b2, a0 * b1, a1 * b0);
    lemma_prod_rotate(b0, a1, b2);
    lemma_prod_rotate(b0, a2, b1);
    lemma_prod_rotate(b1, a2, b0);
    lemma_prod_rotate(b1, a0, b2);
    lemma_prod_rotate(b2, a0, b1);
    lemma_prod_rotate(b2, a1, b0);
    lemma_mul_is_commutative(a1, b0);
    lemma_mul_is_commutative(a2, b0);
    lemma_mul_is_commutative(a0, b1);
    lemma_mul_is_commutative(a2, b1);
    lemma_mul_is_commutative(a0, b2);
    lemma_mul_is_commutative(a1, b2);
}

/// The scalar triple product is invariant under cyclic rotation of its
/// columns.
proof fn lemma_det_cyclic(a: (int, int, int), b: (int, int, int), c: (int, int, int))
    ensures
        s_det3(a, b, c) == s_dot(c, s_cross(a, b)),
{
    let a0 = a.0;
    let a1 = a.1;
    let a2 = a.2;
    let b0 = b.0;
    let b1 = b.1;
    let b2 = b.2;
    let c0 = c.0;
    let c1 = c.1;
    let c2 = c.2;
    lemma_mul_is_distributive_sub(a0, b1 * c2, b2 * c1);
    lemma_mul_is_distributive_sub(a1, b2 * c0, b0 * c2);
    lemma_mul_is_distributive_sub(a2, b0 * c1, b1 * c0);
    lemma_mul_is_distributive_sub(c0, a1 * b2, a2 * b1);
    lemma_mul_is_distributive_sub(c1, a2 * b0, a0 * b2);
    lemma_mul_is_distributive_sub(c2, a0 * b1, a1 * b0);
    lemma_prod_rotate(a0, b1, c2);
    lemma_prod_rotate(a0, b2, c1);
    lemma_prod_rotate(a1, b2, c0);
    lemma_prod_rotate(a1, b0, c2);
    lemma_prod_rotate(a2, b0, c1);
    lemma_prod_rotate(a2, b1, c0);
    lemma_mul_is_commutative(a1, b2);
    lemma_mul_is_commutative(a0, b2);
    lemma_mul_is_commutative(a2, b1);
    lemma_mul_is_commutative(a2, b0);
    lemma_mul_is_commutative(a0, b1);
    lemma_mul_is_commutative(a1, b0);
}

/// The scalar triple product is antisymmetric in its first two columns.
proof fn lemma_det_swap12(a: (int, int, int), b: (int, int, int), c: (int, int, int))
    ensures
        s_det3(a, b, c) == -s_det3(b, a, c),
{
    let a0 = a.0;
    let a1 = a.1;
    let a2 = a.2;
    let b0 = b.0;
    let b1 = b.1;
    let b2 = b.2;
    let c0 = c.0;
    let c1 = c.1;
    let c2 = c.2;
    lemma_mul_is_distributive_sub(a0, b1 * c2, b2 * c1);
    lemma_mul_is_distributive_sub(a1, b2 * c0, b0 * c2);
    lemma_mul_is_distributive_sub(a2, b0 * c1, b1 * c0);
    lemma_mul_is_distributive_sub(b0, a1 * c2, a2 * c1);
    lemma_mul_is_distributive_sub(b1, a2 * c0, a0 * c2);
    lemma_mul_is_distributive_sub(b2, a0 * c1, a1 * c0);
    lemma_prod_swap(a0, b1, c2);
    lemma_prod_swap(a0, b2, c1);
    lemma_prod_swap(a1, b2, c0);
    lemma_prod_swap(a1, b0, c2);
    lemma_prod_swap(a2, b0, c1);
    lemma_prod_swap(a2, b1, c0);
}

/// Adding a multiple of the second column to the first leaves the scalar
/// triple product unchanged.
proof fn lemma_det_shift_1(a: (int, int, int), k: int, b: (int, int, int), c: (int, int, int))
    ensures
        s_det3(s_add(a, s_scale(k, b)), b, c) == s_det3(a, b, c),
{
    lemma_det_shift_2(a, k, b, b, c);
    lemma_dot_cross_self(b, c);
    assert(s_det3(b, b, c) == 0);
    assert(k * s_det3(b, b, c) == 0) by {
        lemma_mul_basics(k);
    }
}

/// The scalar triple product is additive in its second column.
proof fn lemma_det_add_2(a: (int, int, int), b1: (int, int, int), b2: (int, int, int), c: (
    int,
    int,
    int,
))
    ensures
        s_det3(a, s_add(b1, b2), c) == s_det3(a, b1, c) + s_det3(a, b2, c),
{
    let a0 = a.0;
    let a1 = a.1;
    let a2 = a.2;
    let x0 = b1.0;
    let x1 = b1.1;
    let x2 = b1.2;
    let y0 = b2.0;
    let y1 = b2.1;
    let y2 = b2.2;
    let c0 = c.0;
    let c1 = c.1;
    let c2 = c.2;
    lemma_mul_is_distributive_add_other_way(c2, x1, y1);
    lemma_mul_is_distributive_add_other_way(c1, x2, y2);
    lemma_mul_is_distributive_add_other_way(c0, x2, y2);
    lemma_mul_is_distributive_add_other_way(c2, x0, y0);
    lemma_mul_is_distributive_add_other_way(c1, x0, y0);
    lemma_mul_is_distributive_add_other_way(c0, x1, y1);
    lemma_mul_is_distributive_add(a0, x1 * c2 - x2 * c1, y1 * c2 - y2 * c1);
    lemma_mul_is_distributive_add(a1, x2 * c0 - x0 * c2, y2 * c0 - y0 * c2);
    lemma_mul_is_distributive_add(a2, x0 * c1 - x1 * c0, y0 * c1 - y1 * c0);
}

/// The `[0, 1]` range test is symmetric around the midpoint of the range.
proof fn lemma_in_unit_complement(x: int, den: int)
    ensures
        frac_in_unit(den - x, den) == frac_in_unit(x, den),
{
}

/// Rotating the vertices of a triangle changes neither its normal, nor the
/// ray parameter of the plane hit, nor the barycentric containment outcome:
/// `intersect_triangle` on `(p2, p3, p1)` accepts exactly when it accepts on
/// `(p1, p2, p3)`, and both then return the same point.
pub proof fn lemma_triangle_rotation(
    p1: (int, int, int),
    p2: (int, int, int),
    p3: (int, int, int),
    ov: (int, int, int),
    dv: (int, int, int),
)
    ensures
        tri_normal(p2, p3, p1) == tri_normal(p1, p2, p3),
        plane_tn(p2, ov, tri_normal(p2, p3, p1)) == plane_tn(p1, ov, tri_normal(p1, p2, p3)),
        tri_contains(p2, p3, p1, ov, dv) == tri_contains(p1, p2, p3, ov, dv),
{
    let n = tri_normal(p1, p2, p3);
    // the normal is invariant under rotation of the vertices
    assert((p3.1 - p2.1) * (p1.2 - p2.2) - (p3.2 - p2.2) * (p1.1 - p2.1) == (p2.1 - p1.1) * (p3.2
        - p1.2) - (p2.2 - p1.2) * (p3.1 - p1.1)) by (nonlinear_arith);
    assert((p3.2 - p2.2) * (p1.0 - p2.0) - (p3.0 - p2.0) * (p1.2 - p2.2) == (p2.2 - p1.2) * (p3.0
        - p1.0) - (p2.0 - p1.0) * (p3.2 - p1.2)) by (nonlinear_arith);
    assert((p3.0 - p2.0) * (p1.1 - p2.1) - (p3.1 - p2.1) * (p1.0 - p2.0) == (p2.0 - p1.0) * (p3.1
        - p1.1) - (p2.1 - p1.1) * (p3.0 - p1.0)) by (nonlinear_arith);
    assert(tri_normal(p2, p3, p1) == n);
    // the third-vertex basis cross product equals the normal, for both orders
    assert((p1.1 - p3.1) * (p2.2 - p3.2) - (p1.2 - p3.2) * (p2.1 - p3.1) == (p2.1 - p1.1) * (p3.2
        - p1.2) - (p2.2 - p1.2) * (p3.1 - p1.1)) by (nonlinear_arith);
    assert((p1.2 - p3.2) * (p2.0 - p3.0) - (p1.0 - p3.0) * (p2.2 - p3.2) == (p2.2 - p1.2) * (p3.0
        - p1.0) - (p2.0 - p1.0) * (p3.2 - p1.2)) by (nonlinear_arith);
    assert((p1.0 - p3.0) * (p2.1 - p3.1) - (p1.1 - p3.1) * (p2.0 - p3.0) == (p2.0 - p1.0) * (p3.1
        - p1.1) - (p2.1 - p1.1) * (p3.0 - p1.0)) by (nonlinear_arith);
    assert(s_cross(s_sub(p1, p3), s_sub(p2, p3)) == n);
    assert((p2.1 - p1.1) * (p3.2 - p2.2) - (p2.2 - p1.2) * (p3.1 - p2.1) == (p2.1 - p1.1) * (p3.2
        - p1.2) - (p2.2 - p1.2) * (p3.1 - p1.1)) by (nonlinear_arith);
    assert((p2.2 - p1.2) * (p3.0 - p2.0) - (p2.0 - p1.0) * (p3.2 - p2.2) == (p2.2 - p1.2) * (p3.0
        - p1.0) - (p2.0 - p1.0) * (p3.2 - p1.2)) by (nonlinear_arith);
    assert((p2.0 - p1.0) * (p3.1 - p2.1) - (p2.1 - p1.1) * (p3.0 - p2.0) == (p2.0 - p1.0) * (p3.1
        - p1.1) - (p2.1 - p1.1) * (p3.0 - p1.0)) by (nonlinear_arith);
    assert(s_cross(s_sub(p2, p1), s_sub(p3, p1)) == n);
    // the plane-hit numerator is invariant: (p2 - p1) is orthogonal to n
    lemma_dot_cross_self(s_sub(p2, p1), s_sub(p3, p1));
    assert(s_dot(s_sub(p2, p1), n) == 0);
    assert(s_dot(s_sub(p2, ov), n) == s_dot(s_sub(p1, ov), n)) by (nonlinear_arith)
        requires
            (p2.0 - p1.0) * n.0 + (p2.1 - p1.1) * n.1 + (p2.2 - p1.2) * n.2 == 0,
            s_dot(s_sub(p2, ov), n) == (p2.0 - ov.0) * n.0 + (p2.1 - ov.1) * n.1 + (p2.2 - ov.2)
                * n.2,
            s_dot(s_sub(p1, ov), n) == (p1.0 - ov.0) * n.0 + (p1.1 - ov.1) * n.1 + (p1.2 - ov.2)
                * n.2,
    ;
    // the barycentric determinants permute: u' = v, v' = 1 - u - v
    let td = plane_td(dv, n);
    let tn = plane_tn(p1, ov, n);
    let tnum = s_sub(s_add(s_scale(td, ov), s_scale(tn, dv)), s_scale(td, p3));
    let tnum2 = s_sub(s_add(s_scale(td, ov), s_scale(tn, dv)), s_scale(td, p1));
    let b = tri_bary(p1, p2, p3, ov, dv);
    let b2 = tri_bary(p2, p3, p1, ov, dv);
    let nn = s_dot(n, n);
    assert(b == (s_det3(tnum, s_sub(p2, p3), n), s_det3(s_sub(p1, p3), tnum, n), td * nn));
    assert(b2 == (s_det3(tnum2, s_sub(p3, p1), n), s_det3(s_sub(p2, p1), tnum2, n), td * nn));
    // tnum2 = tnum + td * (p3 - p1)
    assert(tnum2 == s_add(tnum, s_scale(td, s_sub(p3, p1)))) by {
        assert(td * ov.0 + tn * dv.0 - td * p1.0 == (td * ov.0 + tn * dv.0 - td * p3.0) + td * (
        p3.0 - p1.0)) by (nonlinear_arith);
        assert(td * ov.1 + tn * dv.1 - td * p1.1 == (td * ov.1 + tn * dv.1 - td * p3.1) + td * (
        p3.1 - p1.1)) by (nonlinear_arith);
        assert(td * ov.2 + tn * dv.2 - td * p1.2 == (td * ov.2 + tn * dv.2 - td * p3.2) + td * (
        p3.2 - p1.2)) by (nonlinear_arith);
    }
    // u' == v
    lemma_det_shift_1(tnum, td, s_sub(p3, p1), n);
    assert(s_det3(tnum2, s_sub(p3, p1), n) == s_det3(tnum, s_sub(p3, p1), n));
    lemma_det_swap12(s_sub(p1, p3), tnum, n);
    assert(s_sub(p3, p1) == s_scale(-1, s_sub(p1, p3)));
    lemma_det_neg_2(tnum, s_sub(p1, p3), n);
    assert(b2.0 == b.1);
    // v' == den - u - v
    lemma_det_swap12(s_sub(p2, p1), tnum2, n);
    lemma_det_swap12(s_sub(p2, p1), tnum, n);
    lemma_det_swap12(tnum, s_sub(p2, p1), n);
    assert(s_det3(s_sub(p2, p1), tnum2, n) == -s_det3(tnum2, s_sub(p2, p1), n));
    lemma_det_shift_2(tnum, td, s_sub(p3, p1), s_sub(p2, p1), n);
    // det(tnum2, p2-p1, n) == det(tnum, p2-p1, n) + td * det(p3-p1, p2-p1, n)
    lemma_det_cyclic(s_sub(p3, p1), s_sub(p2, p1), n);
    lemma_det_swap_cross(s_sub(p2, p1), s_sub(p3, p1));
    // det(p3-p1, p2-p1, n) == n . cross(p3-p1, p2-p1) == -(n . n)
    assert(s_det3(s_sub(p3, p1), s_sub(p2, p1), n) == -nn);
    // det(tnum, p2-p1, n) == det(tnum, (p2-p3) + (p3-p1), n)
    assert(s_sub(p2, p1) == s_add(s_sub(p2, p3), s_sub(p3, p1)));
    lemma_det_add_2(tnum, s_sub(p2, p3), s_sub(p3, p1), n);
    lemma_det_cyclic(s_sub(p1, p3), tnum, n);
    lemma_det_cyclic(tnum, s_sub(p3, p1), n);
    lemma_cross_antisym(s_sub(p1, p3), tnum);
    assert(s_det3(tnum, s_sub(p3, p1), n) == b.1) by {
        lemma_det_swap12(tnum, s_sub(p1, p3), n);
        lemma_det_neg_2_alt(tnum, s_sub(p1, p3), n);
    }
    lemma_mul_unary_negation2(td, nn);
    assert(td * s_det3(s_sub(p3, p1), s_sub(p2, p1), n) == -(td * nn));
    assert(s_det3(tnum, s_sub(p2, p1), n) == b.0 + b.1);
    assert(s_det3(tnum2, s_sub(p2, p1), n) == b.0 + b.1 - td * nn);
    assert(b2.1 == td * nn - b.0 - b.1);
    // the acceptance tests coincide
    lemma_in_unit_complement(b.0 + b.1, b.2);
    lemma_in_unit_complement(b.0, b.2);
    assert(frac_in_unit(b2.0, b.2) == frac_in_unit(b.1, b.2));
    assert(frac_in_unit(b2.1, b.2) == frac_in_unit(b.2 - b.0 - b.1, b.2));
    assert(frac_in_unit(b2.0 + b2.1, b.2) == frac_in_unit(b.2 - b.0, b.2));
}

/// Negating the second column negates the scalar triple product.
proof fn lemma_det_neg_2(a: (int, int, int), b: (int, int, int), c: (int, int, int))
    ensures
        s_det3(a, s_scale(-1, b), c) == -s_det3(a, b, c),
{
    let a0 = a.0;
    let a1 = a.1;
    let a2 = a.2;
    let b0 = b.0;
    let b1 = b.1;
    let b2 = b.2;
    let c0 = c.0;
    let c1 = c.1;
    let c2 = c.2;
    assert((-1) * b0 == -b0 && (-1) * b1 == -b1 && (-1) * b2 == -b2) by {
        lemma_mul_basics(b0);
        lemma_mul_basics(b1);
        lemma_mul_basics(b2);
        lemma_mul_unary_negation(1, b0);
        lemma_mul_unary_negation(1, b1);
        lemma_mul_unary_negation(1, b2);
        lemma_mul_is_commutative(-1, b0);
        lemma_mul_is_commutative(-1, b1);
        lemma_mul_is_commutative(-1, b2);
        lemma_mul_is_commutative(1, b0);
        lemma_mul_is_commutative(1, b1);
        lemma_mul_is_commutative(1, b2);
    }
    lemma_det_neg_core(a, b, c);
}

/// Variant of the negation rule, stated from the negated column.
proof fn lemma_det_neg_2_alt(a: (int, int, int), b: (int, int, int), c: (int, int, int))
    ensures
        s_det3(a, s_sub((0, 0, 0), b), c) == -s_det3(a, b, c),
        s_det3(a, (-b.0, -b.1, -b.2), c) == -s_det3(a, b, c),
{
    lemma_det_neg_core(a, b, c);
}

/// Negating the second column negates the scalar triple product (core form).
proof fn lemma_det_neg_core(a: (int, int, int), b: (int, int, int), c: (int, int, int))
    ensures
        s_det3(a, (-b.0, -b.1, -b.2), c) == -s_det3(a, b, c),
{
    let a0 = a.0;
    let a1 = a.1;
    let a2 = a.2;
    let b0 = b.0;
    let b1 = b.1;
    let b2 = b.2;
    let c0 = c.0;
    let c1 = c.1;
    let c2 = c.2;
    lemma_mul_unary_negation(b1, c2);
    lemma_mul_unary_negation(b2, c1);
    lemma_mul_unary_negation(b2, c0);
    lemma_mul_unary_negation(b0, c2);
    lemma_mul_unary_negation(b0, c1);
    lemma_mul_unary_negation(b1, c0);
    lemma_mul_unary_negation2(a0, b1 * c2 - b2 * c1);
    lemma_mul_unary_negation2(a1, b2 * c0 - b0 * c2);
    lemma_mul_unary_negation2(a2, b0 * c1 - b1 * c0);
}

/// `x * (-y) == -(x * y)`.
proof fn lemma_mul_unary_negation2(x: int, y: int)
    ensures
        x * (-y) == -(x * y),
{
    lemma_mul_is_commutative(x, -y);
    lemma_mul_unary_negation(y, x);
    lemma_mul_is_commutative(y, x);
}

/// The cross product is antisymmetric.
proof fn lemma_cross_antisym(a: (int, int, int), b: (int, int, int))
    ensures
        s_cross(a, b) == ((-(s_cross(b, a).0)), -(s_cross(b, a).1), -(s_cross(b, a).2)),
{
    lemma_mul_is_commutative(a.1, b.2);
    lemma_mul_is_commutative(a.2, b.1);
    lemma_mul_is_commutative(a.2, b.0);
    lemma_mul_is_commutative(a.0, b.2);
    lemma_mul_is_commutative(a.0, b.1);
    lemma_mul_is_commutative(a.1, b.0);
}

/// Swapping the arguments of the cross product negates a dot product with it.
proof fn lemma_det_swap_cross(a: (int, int, int), b: (int, int, int))
    ensures
        s_dot(s_cross(a, b), s_cross(b, a)) == -s_dot(s_cross(a, b), s_cross(a, b)),
{
    let x = s_cross(a, b);
    lemma_cross_antisym(b, a);
    lemma_mul_is_commutative(b.1, a.2);
    lemma_mul_is_commutative(b.2, a.1);
    lemma_mul_is_commutative(b.2, a.0);
    lemma_mul_is_commutative(b.0, a.2);
    lemma_mul_is_commutative(b.0, a.1);
    lemma_mul_is_commutative(b.1, a.0);
    assert(s_cross(b, a) == (-x.0, -x.1, -x.2));
    lemma_mul_unary_negation2(x.0, x.0);
    lemma_mul_unary_negation2(x.1, x.1);
    lemma_mul_unary_negation2(x.2, x.2);
}

/// Shifting the first column by a multiple of another vector adds that
/// multiple of the other vector's determinant.
proof fn lemma_det_shift_2(
    a: (int, int, int),
    k: int,
    s: (int, int, int),
    b: (int, int, int),
    c: (int, int, int),
)
    ensures
        s_det3(s_add(a, s_scale(k, s)), b, c) == s_det3(a, b, c) + k * s_det3(s, b, c),
{
    let s0 = s.0;
    let s1 = s.1;
    let s2 = s.2;
    let x0 = b.1 * c.2 - b.2 * c.1;
    let x1 = b.2 * c.0 - b.0 * c.2;
    let x2 = b.0 * c.1 - b.1 * c.0;
    lemma_mul_is_distributive_add_other_way(x0, a.0, k * s0);
    lemma_mul_is_distributive_add_other_way(x1, a.1, k * s1);
    lemma_mul_is_distributive_add_other_way(x2, a.2, k * s2);
    lemma_mul_is_associative(k, s0, x0);
    lemma_mul_is_associative(k, s1, x1);
    lemma_mul_is_associative(k, s2, x2);
    lemma_mul_is_distributive_add(k, s0 * x0, s1 * x1);
    lemma_mul_is_distributive_add(k, s0 * x0 + s1 * x1, s2 * x2);
}

/// Intersection of a ray with the quadrilateral `(p1, p2, p3, p4)`: the hit
/// of the ray with the quad's plane, accepted by a diamond test around the
/// quad's centroid. The test is exact for the axis-aligned rectangles of a
/// bounding box; for other quads it is an approximation.
pub fn intersect_square(
    p1: Vec3,
    p2: Vec3,
    p3: Vec3,
    p4: Vec3,
    ray_origin: Vec3,
    ray_direction: Vec3,
) -> (r: Option<RatPoint>)
    requires
        bounded3(p1.v(), QUAD_LIMIT as int),
        bounded3(p2.v(), QUAD_LIMIT as int),
        bounded3(p3.v(), QUAD_LIMIT as int),
        bounded3(p4.v(), QUAD_LIMIT as int),
        bounded3(ray_origin.v(), QUAD_LIMIT as int),
        bounded3(ray_direction.v(), QUAD_LIMIT as int),
    ensures
        r is Some <==> plane_td(ray_direction.v(), tri_normal(p1.v(), p2.v(), p3.v())) != 0
            && quad_contains(p1.v(), p2.v(), p3.v(), p4.v(), ray_origin.v(), ray_direction.v()),
        r matches Some(q) ==> rp_wf(q) && rp_is(
            q,
            s_ray_point(
                ray_origin.v(),
                ray_direction.v(),
                plane_tn(p1.v(), ray_origin.v(), tri_normal(p1.v(), p2.v(), p3.v())),
                plane_td(ray_direction.v(), tri_normal(p1.v(), p2.v(), p3.v())),
            ),
        ),
        r matches Some(q) ==> {
            &&& q.x.d <= 105553116266496 && q.y.d <= 105553116266496 && q.z.d
                <= 105553116266496
            &&& iabs(q.x.n as int) <= 5188146770730811392
            &&& iabs(q.y.n as int) <= 5188146770730811392
            &&& iabs(q.z.n as int) <= 5188146770730811392
        },
{
    let w1 = Wide3::from_vec3(&p1);
    let w2 = Wide3::from_vec3(&p2);
    let w3 = Wide3::from_vec3(&p3);
    let w4 = Wide3::from_vec3(&p4);
    let o = Wide3::from_vec3(&ray_origin);
    let d = Wide3::from_vec3(&ray_direction);
    let e1 = w2.sub(&w1, Ghost(16384), Ghost(16384));
    let e2 = w3.sub(&w1, Ghost(16384), Ghost(16384));
    let n = e1.cross(&e2, Ghost(32768), Ghost(32768));
    let td = d.dot(&n, Ghost(16384), Ghost(2147483648));
    if td == 0 {
        return None;
    }
    let pmo = w1.sub(&o, Ghost(16384), Ghost(16384));
    let tn = pmo.dot(&n, Ghost(32768), Ghost(2147483648));
    // centroid times four, and the basis and target scaled by four
    let c4a = w1.add(&w2, Ghost(16384), Ghost(16384));
    let c4b = w3.add(&w4, Ghost(16384), Ghost(16384));
    let c4 = c4a.add(&c4b, Ghost(32768), Ghost(32768));
    let o4 = o.scale(4, Ghost(16384), Ghost(4));
    let d4 = d.scale(4, Ghost(16384), Ghost(4));
    let oscale = o4.scale(td, Ghost(65536), Ghost(105553116266496));
    let dscale = d4.scale(tn, Ghost(65536), Ghost(211106232532992));
    let onum = oscale.add(&dscale, Ghost(6917529027641081856), Ghost(13835058055282163712));
    let cscale = c4.scale(td, Ghost(65536), Ghost(105553116266496));
    let tnum = onum.sub(&cscale, Ghost(20752587082923245568), Ghost(6917529027641081856));
    let p14 = w1.scale(4, Ghost(16384), Ghost(4));
    let p24 = w2.scale(4, Ghost(16384), Ghost(4));
    let u1 = p14.sub(&c4, Ghost(65536), Ghost(65536));
    let u2 = p24.sub(&c4, Ghost(65536), Ghost(65536));
    let w = u1.cross(&u2, Ghost(131072), Ghost(131072));
    let det_u = tnum.det3(
        &u2,
        &w,
        Ghost(27670116110564327424),
        Ghost(131072),
        Ghost(34359738368),
    );
    let det_v = u1.det3(
        &tnum,
        &w,
        Ghost(131072),
        Ghost(27670116110564327424),
        Ghost(34359738368),
    );
    let nn = w.dot(&w, Ghost(34359738368), Ghost(34359738368));
    proof {
        lemma_mul_bound(td as int, 105553116266496, nn as int, 3541774862152233910272);
    }
    let den = td * nn;
    let inside = if den == 0 {
        false
    } else {
        let ua = abs_exec(det_u, Ghost(747690747629015178508391471407693824));
        let va = abs_exec(det_v, Ghost(747690747629015178508391471407693824));
        let da = abs_exec(den, Ghost(373845373814507589254195735703846912));
        ua <= da && va <= da && ua + va <= da
    };
    if inside {
        Some(
            ray_eval(
                &o,
                &d,
                tn,
                td,
                Ghost(16384),
                Ghost(16384),
                Ghost(211106232532992),
                Ghost(105553116266496),
            ),
        )
    } else {
        None
    }
}

} // verus!
