//! Incremental 3-D grid traversal: the ordered sequence of grid cells a
//! segment passes through between an entry cell/point and an exit cell/point.
//!
//! The cursor keeps, per axis, the sign of travel, the number of whole-cell
//! boundary crossings still owed, and the coordinate of the next grid line.
//! Each `next` call crosses the nearest boundary (smallest parameter `t`
//! along the segment) and recomputes the cell from the exact new position.
//! All arithmetic is exact; an operation that would leave the `i128` range
//! ends the traversal early, which a caller observes as an ordinary end.

use vstd::prelude::*;
use crate::num::{
    Rat, rat_wf, qv, qeq, qle, qlt, qadd, qsub, qmul, qdiv, qabs, qsgn, qfloor_div, divides,
    iabs, within_i128, lemma_qeq_trans, lemma_qadd_congr_r, lemma_qmul_congr,
    lemma_qmul_congr_r, lemma_qlt_congr, lemma_qdiv_unique, lemma_qfloor_congr,
    lemma_qabs_congr, lemma_q_order_trans,
};
use crate::vec3::{RatPoint, rp_wf, lemma_mul_bound};
use vstd::arithmetic::mul::lemma_mul_strictly_positive;
use vstd::arithmetic::div_mod::{lemma_fundamental_div_mod, lemma_mod_bound};

verus! {

/// A grid-traversal cursor between two cells.
pub struct Path {
    pub out_key: [u32; 3],
    pub direction: RatPoint,
    pub unit: i64,
    /// The cell the cursor currently occupies.
    pub current_key: [u32; 3],
    /// The exact position of the cursor on the segment.
    pub current_point: RatPoint,
    pub div0: i128,
    pub div1: i128,
    pub div2: i128,
    pub sign0: i64,
    pub sign1: i64,
    pub sign2: i64,
    pub border0: i128,
    pub border1: i128,
    pub border2: i128,
    pub first: bool,
    pub _dims: [u32; 3],
}

impl Path {
    /// Remaining signed crossings on axis `i`.
    pub open spec fn div_at(self, i: int) -> int {
        if i == 0 {
            self.div0 as int
        } else if i == 1 {
            self.div1 as int
        } else {
            self.div2 as int
        }
    }

    /// Sign of travel on axis `i`.
    pub open spec fn sign_at(self, i: int) -> int {
        if i == 0 {
            self.sign0 as int
        } else if i == 1 {
            self.sign1 as int
        } else {
            self.sign2 as int
        }
    }

    /// Next grid line on axis `i`.
    pub open spec fn border_at(self, i: int) -> int {
        if i == 0 {
            self.border0 as int
        } else if i == 1 {
            self.border1 as int
        } else {
            self.border2 as int
        }
    }

    /// Position component on axis `i`, as a rational pair.
    pub open spec fn point_at(self, i: int) -> (int, int) {
        if i == 0 {
            qv(self.current_point.x)
        } else if i == 1 {
            qv(self.current_point.y)
        } else {
            qv(self.current_point.z)
        }
    }

    /// Direction component on axis `i`, as a rational pair.
    pub open spec fn dir_at(self, i: int) -> (int, int) {
        if i == 0 {
            qv(self.direction.x)
        } else if i == 1 {
            qv(self.direction.y)
        } else {
            qv(self.direction.z)
        }
    }

    /// Current cell coordinate on axis `i`.
    pub open spec fn key_at(self, i: int) -> int {
        if i == 0 {
            self.current_key[0] as int
        } else if i == 1 {
            self.current_key[1] as int
        } else {
            self.current_key[2] as int
        }
    }

    /// Whether the cursor has ended: the first call is still owed, or the
    /// traversal is over.
    pub open spec fn started(self) -> bool {
        !self.first
    }

    /// The cell edge length of the traversal.
    pub open spec fn unit_of(self) -> int {
        self.unit as int
    }
}

/// Internal consistency of a cursor: a positive cell edge, well-formed
/// rationals, signs in `{-1, 0, 1}` matching the direction and the owed
/// crossings, and grid-line borders that are multiples of the cell edge.
pub open spec fn path_wf(p: Path) -> bool {
    &&& p.unit >= 1
    &&& rp_wf(p.direction)
    &&& rp_wf(p.current_point)
    &&& forall|i: int| 0 <= i < 3 ==> #[trigger] p.sign_at(i) == qsgn(p.dir_at(i))
    &&& forall|i: int| 0 <= i < 3 ==> (#[trigger] p.div_at(i) > 0 ==> p.sign_at(i) == 1) && (
    p.div_at(i) < 0 ==> p.sign_at(i) == -1)
    &&& forall|i: int| 0 <= i < 3 ==> #[trigger] divides(p.unit as int, p.border_at(i))
    &&& p.border0 > i128::MIN && p.border1 > i128::MIN && p.border2 > i128::MIN
}

/// The traversal's termination measure: the entry cell still owed, plus the
/// total number of boundary crossings still owed.
pub open spec fn path_measure(p: Path) -> int {
    (if p.first {
        1int
    } else {
        0int
    }) + iabs(p.div0 as int) + iabs(p.div1 as int) + iabs(p.div2 as int)
}

/// The parameter `t` at which the segment crosses the next grid line of
/// axis `i`: `(border - position) / direction`, as a rational pair with a
/// positive denominator (meaningful for an eligible axis).
pub open spec fn t_of(p: Path, i: int) -> (int, int) {
    qdiv(qsub((p.border_at(i), 1int), p.point_at(i)), p.dir_at(i))
}

/// Axis `i` still owes boundary crossings.
pub open spec fn eligible(p: Path, i: int) -> bool {
    0 <= i < 3 && p.div_at(i) != 0
}

/// Cell coordinate from a position component: floor of the position divided
/// by the cell edge; when traveling in the negative direction and the
/// position lies exactly on a grid line, the cell below the line.
pub open spec fn s_cut(v: (int, int), sign: int, u: int) -> int {
    let q = qfloor_div(v, u);
    let exact = v.0 % (v.1 * u) == 0;
    if q == 0 {
        0
    } else if sign > 0 {
        q
    } else if !exact {
        q
    } else {
        q - 1
    }
}

/// Saturation of a cell coordinate into the `u32` range.
pub open spec fn clamp_key(x: int) -> int {
    if x < 0 {
        0
    } else if x > u32::MAX as int {
        u32::MAX as int
    } else {
        x
    }
}

/// The next grid line from position `v` in direction `sign`: the next
/// multiple of `u` above when moving up; the next multiple strictly below
/// when moving down, counting a position exactly on a grid line as on it.
pub open spec fn s_unit_round(v: (int, int), sign: int, u: int) -> int {
    let q = qfloor_div(v, u);
    let exact = v.0 % (v.1 * u) == 0;
    if sign > 0 {
        (q + 1) * u
    } else if exact {
        (q - 1) * u
    } else {
        q * u
    }
}

/// One traversal step along axis `i`: axis `i` is eligible and its boundary
/// is the nearest (ties broken toward the lower axis index); the position
/// advances to that boundary along the segment; the cell is recomputed from
/// the exact new position; the owed crossings on axis `i` shrink by one and
/// its border advances by one cell edge while crossings remain.
pub open spec fn axis_step(o: Path, n: Path, i: int) -> bool {
    &&& eligible(o, i)
    &&& (eligible(o, 0) ==> qle(t_of(o, i), t_of(o, 0)))
    &&& (eligible(o, 1) ==> qle(t_of(o, i), t_of(o, 1)))
    &&& (eligible(o, 2) ==> qle(t_of(o, i), t_of(o, 2)))
    &&& (eligible(o, 0) && 0 < i ==> qlt(t_of(o, i), t_of(o, 0)))
    &&& (eligible(o, 1) && 1 < i ==> qlt(t_of(o, i), t_of(o, 1)))
    &&& qeq(n.point_at(0), qadd(o.point_at(0), qmul(o.dir_at(0), t_of(o, i))))
    &&& qeq(n.point_at(1), qadd(o.point_at(1), qmul(o.dir_at(1), t_of(o, i))))
    &&& qeq(n.point_at(2), qadd(o.point_at(2), qmul(o.dir_at(2), t_of(o, i))))
    &&& n.key_at(0) == clamp_key(s_cut(n.point_at(0), o.sign_at(0), o.unit as int))
    &&& n.key_at(1) == clamp_key(s_cut(n.point_at(1), o.sign_at(1), o.unit as int))
    &&& n.key_at(2) == clamp_key(s_cut(n.point_at(2), o.sign_at(2), o.unit as int))
    &&& n.div_at(i) == o.div_at(i) - o.sign_at(i)
    &&& (i != 0 ==> n.div_at(0) == o.div_at(0) && n.border_at(0) == o.border_at(0))
    &&& (i != 1 ==> n.div_at(1) == o.div_at(1) && n.border_at(1) == o.border_at(1))
    &&& (i != 2 ==> n.div_at(2) == o.div_at(2) && n.border_at(2) == o.border_at(2))
    &&& n.border_at(i) == if n.div_at(i) != 0 {
        o.border_at(i) + o.sign_at(i) * o.unit as int
    } else {
        o.border_at(i)
    }
    &&& !o.first && !n.first
    &&& n.direction == o.direction
    &&& n.unit == o.unit
    &&& n.out_key == o.out_key
    &&& n.sign0 == o.sign0 && n.sign1 == o.sign1 && n.sign2 == o.sign2
}

/// A rational whose representation is small enough for one full traversal
/// step: all intermediate products stay well within `i128`.
pub open spec fn rat_step_small(a: Rat) -> bool {
    a.d <= 0x400 && -0x40000000 <= a.n <= 0x40000000
}

/// A cursor state from which the next step's arithmetic cannot leave the
/// representable range: position and direction representations are small,
/// borders moderate, and the cell edge bounded.
pub open spec fn step_small(p: Path) -> bool {
    &&& rat_step_small(p.current_point.x) && rat_step_small(p.current_point.y)
        && rat_step_small(p.current_point.z)
    &&& rat_step_small(p.direction.x) && rat_step_small(p.direction.y) && rat_step_small(
        p.direction.z,
    )
    &&& -0x100000000 <= p.border0 <= 0x100000000
    &&& -0x100000000 <= p.border1 <= 0x100000000
    &&& -0x100000000 <= p.border2 <= 0x100000000
    &&& 1 <= p.unit <= 0x40000000
}

/// The inputs of one crossing-parameter computation are small enough that it
/// cannot fail.
pub open spec fn axis_t_small(x: Rat, border: i128, dir: Rat) -> bool {
    &&& rat_step_small(x)
    &&& rat_step_small(dir)
    &&& -0x100000000 <= border <= 0x100000000
}

/// An integer-valued rational with a moderate magnitude: under these the
/// traversal constructor is exact (no early degradation).
pub open spec fn rat_small_int(a: Rat) -> bool {
    a.d == 1 && -0x1000000000000000 <= a.n <= 0x1000000000000000
}

/// All three components are moderate integers.
pub open spec fn rp_small_int(p: RatPoint) -> bool {
    rat_small_int(p.x) && rat_small_int(p.y) && rat_small_int(p.z)
}

/// The constructed cursor's traversal state matches the specified one
/// exactly: direction is the difference of the end points, signs follow it,
/// owed crossings are `floor(|direction| / unit)` with the travel sign, and
/// each border is the nearest grid line away from the entry point.
pub open spec fn path_fields_exact(r: Path, inp: RatPoint, outp: RatPoint, unit: i64) -> bool {
    let dq0 = qsub(qv(outp.x), qv(inp.x));
    let dq1 = qsub(qv(outp.y), qv(inp.y));
    let dq2 = qsub(qv(outp.z), qv(inp.z));
    &&& qeq(r.dir_at(0), dq0) && qeq(r.dir_at(1), dq1) && qeq(r.dir_at(2), dq2)
    &&& r.sign_at(0) == qsgn(dq0) && r.sign_at(1) == qsgn(dq1) && r.sign_at(2) == qsgn(dq2)
    &&& r.div_at(0) == qfloor_div(qabs(dq0), unit as int) * qsgn(dq0)
    &&& r.div_at(1) == qfloor_div(qabs(dq1), unit as int) * qsgn(dq1)
    &&& r.div_at(2) == qfloor_div(qabs(dq2), unit as int) * qsgn(dq2)
    &&& r.border_at(0) == s_unit_round(qv(inp.x), qsgn(dq0), unit as int)
    &&& r.border_at(1) == s_unit_round(qv(inp.y), qsgn(dq1), unit as int)
    &&& r.border_at(2) == s_unit_round(qv(inp.z), qsgn(dq2), unit as int)
}

/// A cursor with no crossings owed: it yields the entry cell and ends.
pub open spec fn path_inert(r: Path) -> bool {
    r.div0 == 0 && r.div1 == 0 && r.div2 == 0
}

/// Cell coordinate of one position component, with the on-a-grid-line rule
/// for negative travel, saturated into `u32`.
fn cut_value(v: &Rat, sign: i64, unit: i64) -> (r: Option<u32>)
    requires
        rat_wf(*v),
        unit >= 1,
    ensures
        r matches Some(k) ==> k as int == clamp_key(s_cut(qv(*v), sign as int, unit as int)),
        i128::MIN < v.d * unit <= i128::MAX ==> r is Some,
{
    let fb = match v.floor_by(unit) {
        Some(f) => f,
        None => {
            return None;
        },
    };
    let (q, exact) = fb;
    let cut: i128 = if q == 0 {
        0
    } else if sign > 0 {
        q
    } else if !exact {
        q
    } else {
        proof {
            lemma_mul_strictly_positive(v.d as int, unit as int);
            lemma_fundamental_div_mod(v.n as int, v.d as int * unit as int);
            lemma_mod_bound(v.n as int, v.d as int * unit as int);
            assert(q > i128::MIN) by (nonlinear_arith)
                requires
                    v.n as int == (v.d as int * unit as int) * (q as int) + v.n as int % (
                    v.d as int * unit as int),
                    0 <= v.n as int % (v.d as int * unit as int) < v.d as int * unit as int,
                    v.d as int * unit as int >= 1,
                    v.n > i128::MIN,
                    q as int == qfloor_div(qv(*v), unit as int),
            ;
        }
        q - 1
    };
    if cut < 0 {
        Some(0)
    } else if cut > u32::MAX as i128 {
        Some(u32::MAX)
    } else {
        Some(cut as u32)
    }
}

/// The next grid line from `v` in direction `sign`, as an exact coordinate.
fn unit_round(v: &Rat, sign: i64, unit: i64) -> (r: Option<i128>)
    requires
        rat_wf(*v),
        unit >= 1,
    ensures
        r matches Some(b) ==> b as int == s_unit_round(qv(*v), sign as int, unit as int)
            && divides(unit as int, b as int) && b > i128::MIN,
        rat_small_int(*v) && unit <= 0x1000000000000000 ==> r is Some,
{
    let fb = match v.floor_by(unit) {
        Some(f) => f,
        None => {
            return None;
        },
    };
    let (q, exact) = fb;
    proof {
        if rat_small_int(*v) && unit <= 0x1000000000000000 {
            lemma_mul_strictly_positive(v.d as int, unit as int);
            lemma_fundamental_div_mod(v.n as int, v.d as int * unit as int);
            lemma_mod_bound(v.n as int, v.d as int * unit as int);
            assert(-0x1000000000000000 - 1 <= q < 0x2000000000000000) by (nonlinear_arith)
                requires
                    v.n as int == (v.d as int * unit as int) * (q as int) + v.n as int % (
                    v.d as int * unit as int),
                    0 <= v.n as int % (v.d as int * unit as int) < v.d as int * unit as int,
                    v.d == 1,
                    1 <= unit as int <= 0x1000000000000000,
                    -0x1000000000000000 <= v.n <= 0x1000000000000000,
                    q as int == qfloor_div(qv(*v), unit as int),
            ;
        }
    }
    let qq: i128 = if sign > 0 {
        match q.checked_add(1) {
            Some(v2) => v2,
            None => {
                return None;
            },
        }
    } else if exact {
        match q.checked_sub(1) {
            Some(v2) => v2,
            None => {
                return None;
            },
        }
    } else {
        q
    };
    proof {
        if rat_small_int(*v) && unit <= 0x1000000000000000 {
            assert(i128::MIN < qq as int * unit as int <= i128::MAX) by (nonlinear_arith)
                requires
                    v.n as int == (v.d as int * unit as int) * (qfloor_div(
                        qv(*v),
                        unit as int,
                    )) + v.n as int % (v.d as int * unit as int),
                    0 <= v.n as int % (v.d as int * unit as int) < v.d as int * unit as int,
                    v.d == 1,
                    1 <= unit as int <= 0x1000000000000000,
                    -0x1000000000000000 <= v.n <= 0x1000000000000000,
                    qq as int == qfloor_div(qv(*v), unit as int) + 1 || qq as int == qfloor_div(
                        qv(*v),
                        unit as int,
                    ) - 1 || qq as int == qfloor_div(qv(*v), unit as int),
            ;
        }
    }
    let b = match qq.checked_mul(unit as i128) {
        Some(v2) => v2,
        None => {
            return None;
        },
    };
    if b == i128::MIN {
        return None;
    }
    proof {
        assert(divides(unit as int, b as int)) by {
            assert(b as int == (qq as int) * (unit as int));
        }
    }
    Some(b)
}

/// The parameter at which the segment from `x` in direction `dir` reaches
/// the coordinate `border`: `(border - x) / dir`.
fn axis_t(x: &Rat, border: i128, dir: &Rat) -> (r: Option<Rat>)
    requires
        rat_wf(*x),
        rat_wf(*dir),
        dir.n != 0,
        border > i128::MIN,
    ensures
        r matches Some(t) ==> rat_wf(t) && qeq(qv(t), qdiv(qsub((border as int, 1int), qv(*x)), qv(*dir))),
        axis_t_small(*x, border, *dir) ==> r is Some && (r matches Some(t) ==> iabs(t.n as int)
            <= 0x20000000000000 && t.d <= 0x10000000000),
{
    let b = Rat { n: border, d: 1 };
    proof {
        if axis_t_small(*x, border, *dir) {
            lemma_mul_bound(border as int, 0x100000000, x.d as int, 0x400);
        }
    }
    let diff = match b.sub(x) {
        Some(v) => v,
        None => {
            proof {
                if axis_t_small(*x, border, *dir) {
                    assert(within_i128(b.n as int * x.d as int));
                    assert(within_i128(x.n as int * b.d as int));
                    assert(within_i128(b.n as int * x.d as int - x.n as int * b.d as int));
                    assert(within_i128(b.d as int * x.d as int));
                    assert(false);
                }
            }
            return None;
        },
    };
    proof {
        if axis_t_small(*x, border, *dir) {
            assert(diff.d <= 0x400);
            assert(iabs(diff.n as int) <= 0x40040000000);
            lemma_mul_bound(diff.n as int, 0x40040000000, dir.d as int, 0x400);
            lemma_mul_bound(dir.n as int, 0x40000000, diff.d as int, 0x400);
        }
    }
    let t = match diff.div(dir) {
        Some(v) => v,
        None => {
            return None;
        },
    };
    proof {
        // t * dir == diff == border - x, so t is the quotient
        lemma_qeq_trans(qmul(qv(t), qv(*dir)), qv(diff), qsub((border as int, 1int), qv(*x)));
        lemma_qdiv_unique(qv(t), qv(*dir), qsub((border as int, 1int), qv(*x)));
    }
    Some(t)
}

/// `x + dir * t`, exactly.
fn advance(x: &Rat, dir: &Rat, t: &Rat) -> (r: Option<Rat>)
    requires
        rat_wf(*x),
        rat_wf(*dir),
        rat_wf(*t),
    ensures
        r matches Some(nx) ==> rat_wf(nx) && qeq(qv(nx), qadd(qv(*x), qmul(qv(*dir), qv(*t)))),
        rat_step_small(*x) && rat_step_small(*dir) && iabs(t.n as int) <= 0x20000000000000
            && t.d <= 0x10000000000 ==> r is Some && (r matches Some(nx) ==> iabs(nx.n as int)
            <= 0x20000000000000000000000000 && nx.d <= 0x1000000000000000),
{
    let ghost small = rat_step_small(*x) && rat_step_small(*dir) && iabs(t.n as int)
        <= 0x20000000000000 && t.d <= 0x10000000000;
    proof {
        if small {
            lemma_mul_bound(dir.n as int, 0x40000000, t.n as int, 0x20000000000000);
            lemma_mul_bound(dir.d as int, 0x400, t.d as int, 0x10000000000);
        }
    }
    let p = match dir.mul(t) {
        Some(v) => v,
        None => {
            return None;
        },
    };
    proof {
        if small {
            assert(iabs(p.n as int) <= 0x800000000000000000000);
            assert(p.d <= 0x4000000000000);
            lemma_mul_bound(x.n as int, 0x40000000, p.d as int, 0x4000000000000);
            lemma_mul_bound(p.n as int, 0x800000000000000000000, x.d as int, 0x400);
            lemma_mul_bound(x.d as int, 0x400, p.d as int, 0x4000000000000);
        }
    }
    let nx = match x.add(&p) {
        Some(v) => v,
        None => {
            return None;
        },
    };
    proof {
        lemma_mul_strictly_positive(dir.d as int, t.d as int);
        lemma_mul_strictly_positive(x.d as int, p.d as int);
        lemma_qadd_congr_r(qv(*x), qv(p), qmul(qv(*dir), qv(*t)));
        lemma_qeq_trans(qv(nx), qadd(qv(*x), qv(p)), qadd(qv(*x), qmul(qv(*dir), qv(*t))));
    }
    Some(nx)
}

/// A cursor that yields its entry cell once and then ends: the fallback
/// when a traversal quantity would leave the representable range.
fn inert_path(in_key: [u32; 3], in_point: RatPoint, out_key: [u32; 3], unit: i64, dims: [u32; 3]) -> (r: Path)
    requires
        rp_wf(in_point),
        unit >= 1,
    ensures
        path_wf(r),
        path_inert(r),
        r.first,
        r.current_key == in_key,
        r.current_point == in_point,
        r.out_key == out_key,
        r.unit == unit,
{
    let r = Path {
        out_key,
        direction: RatPoint {
            x: Rat { n: 0, d: 1 },
            y: Rat { n: 0, d: 1 },
            z: Rat { n: 0, d: 1 },
        },
        unit,
        current_key: in_key,
        current_point: in_point,
        div0: 0,
        div1: 0,
        div2: 0,
        sign0: 0,
        sign1: 0,
        sign2: 0,
        border0: 0,
        border1: 0,
        border2: 0,
        first: true,
        _dims: dims,
    };
    proof {
        assert forall|i: int| 0 <= i < 3 implies #[trigger] divides(
            r.unit as int,
            r.border_at(i),
        ) by {
            assert(r.border_at(i) == 0);
            assert(0int == 0 * (r.unit as int));
        }
        assert forall|i: int| 0 <= i < 3 implies #[trigger] r.sign_at(i) == qsgn(r.dir_at(i)) by {
        }
    }
    r
}

impl Path {
    /// Builds a traversal cursor from the entry cell/point to the exit
    /// cell/point over a grid with cell edge `unit` and dimensions
    /// `(dx, dy, dz)`. If some traversal quantity leaves the representable
    /// range, the cursor starts inert: it yields the entry cell and ends.
    pub fn new(
        in_key: [u32; 3],
        in_point: RatPoint,
        out_key: [u32; 3],
        out_point: RatPoint,
        unit: i64,
        dx: u32,
        dy: u32,
        dz: u32,
    ) -> (r: Path)
        requires
            rp_wf(in_point),
            rp_wf(out_point),
            unit >= 1,
        ensures
            path_wf(r),
            r.first,
            r.current_key == in_key,
            r.current_point == in_point,
            r.out_key == out_key,
            r.unit == unit,
            path_fields_exact(r, in_point, out_point, unit) || path_inert(r),
            rp_small_int(in_point) && rp_small_int(out_point) && unit <= 0x1000000000000000
                ==> path_fields_exact(r, in_point, out_point, unit),
    {
        let dims: [u32; 3] = [dx, dy, dz];
        let inert = inert_path(in_key, in_point, out_key, unit, dims);
        let ghost small = rp_small_int(in_point) && rp_small_int(out_point) && unit
            <= 0x1000000000000000;
        proof {
            if small {
                lemma_small_sub_fits(out_point.x, in_point.x);
                lemma_small_sub_fits(out_point.y, in_point.y);
                lemma_small_sub_fits(out_point.z, in_point.z);
            }
        }
        let d0 = match out_point.x.sub(&in_point.x) {
            Some(v) => v,
            None => {
                return inert;
            },
        };
        let d1 = match out_point.y.sub(&in_point.y) {
            Some(v) => v,
            None => {
                return inert;
            },
        };
        let d2 = match out_point.z.sub(&in_point.z) {
            Some(v) => v,
            None => {
                return inert;
            },
        };
        let s0 = d0.signum();
        let s1 = d1.signum();
        let s2 = d2.signum();
        proof {
            lemma_mul_strictly_positive(out_point.x.d as int, in_point.x.d as int);
            lemma_mul_strictly_positive(out_point.y.d as int, in_point.y.d as int);
            lemma_mul_strictly_positive(out_point.z.d as int, in_point.z.d as int);
            lemma_qabs_congr(qv(d0), qsub(qv(out_point.x), qv(in_point.x)));
            lemma_qabs_congr(qv(d1), qsub(qv(out_point.y), qv(in_point.y)));
            lemma_qabs_congr(qv(d2), qsub(qv(out_point.z), qv(in_point.z)));
            if small {
                assert(out_point.x.d as int * in_point.x.d as int == 1) by (nonlinear_arith)
                    requires
                        out_point.x.d == 1,
                        in_point.x.d == 1,
                ;
                assert(out_point.y.d as int * in_point.y.d as int == 1) by (nonlinear_arith)
                    requires
                        out_point.y.d == 1,
                        in_point.y.d == 1,
                ;
                assert(out_point.z.d as int * in_point.z.d as int == 1) by (nonlinear_arith)
                    requires
                        out_point.z.d == 1,
                        in_point.z.d == 1,
                ;
                assert(d0.d == 1 && d1.d == 1 && d2.d == 1);
                assert(d0.d as int * unit as int == unit as int) by (nonlinear_arith)
                    requires
                        d0.d == 1,
                ;
                assert(d1.d as int * unit as int == unit as int) by (nonlinear_arith)
                    requires
                        d1.d == 1,
                ;
                assert(d2.d as int * unit as int == unit as int) by (nonlinear_arith)
                    requires
                        d2.d == 1,
                ;
            }
        }
        let a0 = d0.abs();
        let a1 = d1.abs();
        let a2 = d2.abs();
        let f0 = match a0.floor_by(unit) {
            Some(v) => v.0,
            None => {
                return inert;
            },
        };
        let f1 = match a1.floor_by(unit) {
            Some(v) => v.0,
            None => {
                return inert;
            },
        };
        let f2 = match a2.floor_by(unit) {
            Some(v) => v.0,
            None => {
                return inert;
            },
        };
        proof {
            lemma_qfloor_congr(qv(a0), qabs(qsub(qv(out_point.x), qv(in_point.x))), unit as int);
            lemma_qfloor_congr(qv(a1), qabs(qsub(qv(out_point.y), qv(in_point.y))), unit as int);
            lemma_qfloor_congr(qv(a2), qabs(qsub(qv(out_point.z), qv(in_point.z))), unit as int);
            lemma_floor_of_nonneg(a0, unit);
            lemma_floor_of_nonneg(a1, unit);
            lemma_floor_of_nonneg(a2, unit);
        }
        let v0: i128 = if s0 < 0 {
            -f0
        } else if s0 > 0 {
            f0
        } else {
            0
        };
        let v1: i128 = if s1 < 0 {
            -f1
        } else if s1 > 0 {
            f1
        } else {
            0
        };
        let v2: i128 = if s2 < 0 {
            -f2
        } else if s2 > 0 {
            f2
        } else {
            0
        };
        let b0 = match unit_round(&in_point.x, s0, unit) {
            Some(v) => v,
            None => {
                return inert;
            },
        };
        let b1 = match unit_round(&in_point.y, s1, unit) {
            Some(v) => v,
            None => {
                return inert;
            },
        };
        let b2 = match unit_round(&in_point.z, s2, unit) {
            Some(v) => v,
            None => {
                return inert;
            },
        };
        Path {
            out_key,
            direction: RatPoint { x: d0, y: d1, z: d2 },
            unit,
            current_key: in_key,
            current_point: in_point,
            div0: v0,
            div1: v1,
            div2: v2,
            sign0: s0,
            sign1: s1,
            sign2: s2,
            border0: b0,
            border1: b1,
            border2: b2,
            first: true,
            _dims: dims,
        }
    }
}

/// The crossing parameter of an eligible axis is a pair with a positive
/// denominator.
proof fn lemma_t_of_wf(p: Path, i: int)
    requires
        path_wf(p),
        eligible(p, i),
    ensures
        t_of(p, i).1 > 0,
        p.dir_at(i).0 != 0,
{
    assert(p.sign_at(i) == qsgn(p.dir_at(i)));
    assert(p.div_at(i) > 0 ==> p.sign_at(i) == 1);
    let sp = qsub((p.border_at(i), 1int), p.point_at(i));
    assert(sp.1 == 1 * p.point_at(i).1);
    assert(sp.1 == p.point_at(i).1) by (nonlinear_arith)
        requires
            sp.1 == 1 * p.point_at(i).1,
    ;
    if p.dir_at(i).0 >= 0 {
        lemma_mul_strictly_positive(sp.1, p.dir_at(i).0);
    } else {
        lemma_mul_strictly_positive(sp.1, -p.dir_at(i).0);
    }
}

/// The advanced component equals the specified one when the exec parameter
/// `t` equals the spec parameter pair.
proof fn lemma_advance_matches(x: Rat, dir: Rat, t: Rat, nx: Rat, tpair: (int, int))
    requires
        rat_wf(x),
        rat_wf(dir),
        rat_wf(t),
        rat_wf(nx),
        tpair.1 > 0,
        qeq(qv(t), tpair),
        qeq(qv(nx), qadd(qv(x), qmul(qv(dir), qv(t)))),
    ensures
        qeq(qv(nx), qadd(qv(x), qmul(qv(dir), tpair))),
{
    lemma_mul_strictly_positive(dir.d as int, t.d as int);
    lemma_mul_strictly_positive(dir.d as int, tpair.1);
    lemma_mul_strictly_positive(x.d as int, dir.d as int * t.d as int);
    lemma_qmul_congr_r(qv(dir), qv(t), tpair);
    lemma_qadd_congr_r(qv(x), qmul(qv(dir), qv(t)), qmul(qv(dir), tpair));
    lemma_qeq_trans(qv(nx), qadd(qv(x), qmul(qv(dir), qv(t))), qadd(qv(x), qmul(qv(dir), tpair)));
}

impl Path {
    /// Advances the cursor. The very first call yields the entry cell
    /// without moving. Afterwards each call crosses the nearest owed grid
    /// line (the eligible axis with the smallest crossing parameter, ties
    /// broken toward the lower axis), recomputes the cell from the exact new
    /// position, and returns true — until the exit cell is reached, no axis
    /// owes a crossing, or a value leaves the representable range; then it
    /// returns false and the cursor never changes again.
    ///
    /// Termination: every call that returns true strictly decreases
    /// `path_measure`, which is bounded below by zero, so a traversal ends
    /// after finitely many steps.
    #[verifier::rlimit(100)]
    pub fn next(&mut self) -> (r: bool)
        requires
            path_wf(*old(self)),
        ensures
            path_wf(*final(self)),
            old(self).first ==> r,
            r ==> path_measure(*final(self)) < path_measure(*old(self)),
            path_measure(*final(self)) >= 0,
            !r ==> *final(self) == *old(self),
            old(self).first ==> *final(self) == (Path { first: false, ..*old(self) }),
            !old(self).first && old(self).current_key == old(self).out_key ==> !r,
            r && !old(self).first ==> exists|i: int| axis_step(*old(self), *final(self), i),
            !old(self).first && !(old(self).current_key == old(self).out_key) && (old(
                self,
            ).div0 != 0 || old(self).div1 != 0 || old(self).div2 != 0) && step_small(*old(self))
                ==> r,
    {
        if self.first {
            self.first = false;
            proof {
                let f = *self;
                assert forall|i: int| 0 <= i < 3 implies #[trigger] f.sign_at(i) == qsgn(
                    f.dir_at(i),
                ) by {
                    assert(old(self).sign_at(i) == qsgn(old(self).dir_at(i)));
                }
                assert forall|i: int| 0 <= i < 3 implies (#[trigger] f.div_at(i) > 0
                    ==> f.sign_at(i) == 1) && (f.div_at(i) < 0 ==> f.sign_at(i) == -1) by {
                    assert(old(self).div_at(i) > 0 ==> old(self).sign_at(i) == 1);
                    assert(old(self).div_at(i) < 0 ==> old(self).sign_at(i) == -1);
                }
                assert forall|i: int| 0 <= i < 3 implies #[trigger] divides(
                    f.unit as int,
                    f.border_at(i),
                ) by {
                    assert(divides(old(self).unit as int, old(self).border_at(i)));
                }
            }
            return true;
        }
        if self.current_key[0] == self.out_key[0] && self.current_key[1] == self.out_key[1]
            && self.current_key[2] == self.out_key[2] {
            proof {
                assert(self.current_key =~= self.out_key);
            }
            return false;
        }
        let ghost o = *self;
        let ghost hs = step_small(o);
        proof {
            assert(o.sign_at(0) == qsgn(o.dir_at(0)));
            assert(o.sign_at(1) == qsgn(o.dir_at(1)));
            assert(o.sign_at(2) == qsgn(o.dir_at(2)));
            assert(o.div_at(0) > 0 ==> o.sign_at(0) == 1);
            assert(o.div_at(1) > 0 ==> o.sign_at(1) == 1);
            assert(o.div_at(2) > 0 ==> o.sign_at(2) == 1);
            assert(divides(o.unit as int, o.border_at(0)));
            assert(divides(o.unit as int, o.border_at(1)));
            assert(divides(o.unit as int, o.border_at(2)));
        }
        let t0: Option<Rat> = if self.div0 != 0 {
            proof {
                lemma_t_of_wf(o, 0);
            }
            match axis_t(&self.current_point.x, self.border0, &self.direction.x) {
                Some(t) => Some(t),
                None => {
                    return false;
                },
            }
        } else {
            None
        };
        let t1: Option<Rat> = if self.div1 != 0 {
            proof {
                lemma_t_of_wf(o, 1);
            }
            match axis_t(&self.current_point.y, self.border1, &self.direction.y) {
                Some(t) => Some(t),
                None => {
                    return false;
                },
            }
        } else {
            None
        };
        let t2: Option<Rat> = if self.div2 != 0 {
            proof {
                lemma_t_of_wf(o, 2);
            }
            match axis_t(&self.current_point.z, self.border2, &self.direction.z) {
                Some(t) => Some(t),
                None => {
                    return false;
                },
            }
        } else {
            None
        };
        // scan for the first eligible axis with the smallest parameter
        let mut best: Rat = Rat { n: 0, d: 1 };
        let mut best_i: usize = 3;
        if let Some(t) = t0 {
            best = t;
            best_i = 0;
            proof {
                lemma_qlt_congr(qv(t), t_of(o, 0), qv(t), t_of(o, 0));
            }
        }
        proof {
            if best_i != 3 {
                assert(best_i == 0 && eligible(o, 0) && qeq(qv(best), t_of(o, 0)));
            } else {
                assert(!eligible(o, 0));
            }
        }
        if let Some(t) = t1 {
            if best_i == 3 {
                best = t;
                best_i = 1;
            } else {
                proof {
                    if hs {
                        lemma_mul_bound(t.n as int, 0x20000000000000, best.d as int, 0x10000000000);
                        lemma_mul_bound(best.n as int, 0x20000000000000, t.d as int, 0x10000000000);
                    }
                }
                let isless = match t.lt(&best) {
                    Some(b) => b,
                    None => {
                        return false;
                    },
                };
                proof {
                    lemma_t_of_wf(o, 0);
                    lemma_t_of_wf(o, 1);
                    lemma_qlt_congr(qv(t), t_of(o, 1), qv(best), t_of(o, 0));
                }
                if isless {
                    best = t;
                    best_i = 1;
                }
            }
        }
        proof {
            if best_i == 0 {
                assert(eligible(o, 0) && qeq(qv(best), t_of(o, 0)));
                assert(eligible(o, 1) ==> qle(t_of(o, 0), t_of(o, 1)));
            } else if best_i == 1 {
                assert(eligible(o, 1) && qeq(qv(best), t_of(o, 1)));
                assert(eligible(o, 0) ==> qlt(t_of(o, 1), t_of(o, 0)));
            } else {
                assert(!eligible(o, 0) && !eligible(o, 1));
            }
        }
        if let Some(t) = t2 {
            if best_i == 3 {
                best = t;
                best_i = 2;
            } else {
                proof {
                    if hs {
                        lemma_mul_bound(t.n as int, 0x20000000000000, best.d as int, 0x10000000000);
                        lemma_mul_bound(best.n as int, 0x20000000000000, t.d as int, 0x10000000000);
                    }
                }
                let isless = match t.lt(&best) {
                    Some(b) => b,
                    None => {
                        return false;
                    },
                };
                proof {
                    lemma_t_of_wf(o, 2);
                    if best_i == 0 {
                        lemma_t_of_wf(o, 0);
                        lemma_qlt_congr(qv(t), t_of(o, 2), qv(best), t_of(o, 0));
                        if isless && eligible(o, 1) {
                            lemma_t_of_wf(o, 1);
                            lemma_q_order_trans(t_of(o, 2), t_of(o, 0), t_of(o, 1));
                        }
                    } else {
                        lemma_t_of_wf(o, 1);
                        lemma_qlt_congr(qv(t), t_of(o, 2), qv(best), t_of(o, 1));
                        if isless && eligible(o, 0) {
                            lemma_t_of_wf(o, 0);
                            lemma_q_order_trans(t_of(o, 2), t_of(o, 1), t_of(o, 0));
                        }
                    }
                }
                if isless {
                    best = t;
                    best_i = 2;
                }
            }
        }
        if best_i == 3 {
            return false;
        }
        let ghost bi: int = best_i as int;
        proof {
            assert(eligible(o, bi) && qeq(qv(best), t_of(o, bi)));
            assert(eligible(o, 0) ==> qle(t_of(o, bi), t_of(o, 0)));
            assert(eligible(o, 1) ==> qle(t_of(o, bi), t_of(o, 1)));
            assert(eligible(o, 2) ==> qle(t_of(o, bi), t_of(o, 2)));
            assert(eligible(o, 0) && 0 < bi ==> qlt(t_of(o, bi), t_of(o, 0)));
            assert(eligible(o, 1) && 1 < bi ==> qlt(t_of(o, bi), t_of(o, 1)));
            lemma_t_of_wf(o, bi);
        }
        // advance the exact position along the segment
        let nx = match advance(&self.current_point.x, &self.direction.x, &best) {
            Some(v) => v,
            None => {
                return false;
            },
        };
        let ny = match advance(&self.current_point.y, &self.direction.y, &best) {
            Some(v) => v,
            None => {
                return false;
            },
        };
        let nz = match advance(&self.current_point.z, &self.direction.z, &best) {
            Some(v) => v,
            None => {
                return false;
            },
        };
        proof {
            lemma_advance_matches(
                self.current_point.x,
                self.direction.x,
                best,
                nx,
                t_of(o, bi),
            );
            lemma_advance_matches(
                self.current_point.y,
                self.direction.y,
                best,
                ny,
                t_of(o, bi),
            );
            lemma_advance_matches(
                self.current_point.z,
                self.direction.z,
                best,
                nz,
                t_of(o, bi),
            );
        }
        proof {
            if hs {
                lemma_mul_bound(nx.d as int, 0x1000000000000000, self.unit as int, 0x40000000);
                lemma_mul_bound(ny.d as int, 0x1000000000000000, self.unit as int, 0x40000000);
                lemma_mul_bound(nz.d as int, 0x1000000000000000, self.unit as int, 0x40000000);
            }
        }
        // recompute the cell from the new position
        let k0 = match cut_value(&nx, self.sign0, self.unit) {
            Some(v) => v,
            None => {
                return false;
            },
        };
        let k1 = match cut_value(&ny, self.sign1, self.unit) {
            Some(v) => v,
            None => {
                return false;
            },
        };
        let k2 = match cut_value(&nz, self.sign2, self.unit) {
            Some(v) => v,
            None => {
                return false;
            },
        };
        // one crossing fewer on the stepped axis; its border moves on while
        // crossings remain
        let sel_sign: i64 = if best_i == 0 {
            self.sign0
        } else if best_i == 1 {
            self.sign1
        } else {
            self.sign2
        };
        let sel_div: i128 = if best_i == 0 {
            self.div0
        } else if best_i == 1 {
            self.div1
        } else {
            self.div2
        };
        let sel_border: i128 = if best_i == 0 {
            self.border0
        } else if best_i == 1 {
            self.border1
        } else {
            self.border2
        };
        proof {
            assert(o.div_at(bi) > 0 ==> o.sign_at(bi) == 1);
            assert(o.div_at(bi) < 0 ==> o.sign_at(bi) == -1);
        }
        let nd: i128 = sel_div - (sel_sign as i128);
        let nb: i128 = if nd != 0 {
            let step: i128 = (sel_sign as i128) * (self.unit as i128);
            match sel_border.checked_add(step) {
                Some(v) => {
                    if v == i128::MIN {
                        return false;
                    }
                    v
                },
                None => {
                    return false;
                },
            }
        } else {
            sel_border
        };
        proof {
            // the moved border stays on the grid
            if nd != 0 {
                let k = choose|k: int|
                    o.border_at(bi) == #[trigger] (k * (o.unit as int));
                assert(nb as int == (k + o.sign_at(bi)) * (o.unit as int)) by (nonlinear_arith)
                    requires
                        nb as int == o.border_at(bi) + o.sign_at(bi) * (o.unit as int),
                        o.border_at(bi) == k * (o.unit as int),
                ;
            }
        }
        // commit the step
        self.current_point = RatPoint { x: nx, y: ny, z: nz };
        self.current_key = [k0, k1, k2];
        if best_i == 0 {
            self.div0 = nd;
            self.border0 = nb;
        } else if best_i == 1 {
            self.div1 = nd;
            self.border1 = nb;
        } else {
            self.div2 = nd;
            self.border2 = nb;
        }
        proof {
            let f = *self;
            assert forall|i: int| 0 <= i < 3 implies #[trigger] f.sign_at(i) == qsgn(
                f.dir_at(i),
            ) by {
                assert(o.sign_at(i) == qsgn(o.dir_at(i)));
            }
            assert forall|i: int| 0 <= i < 3 implies (#[trigger] f.div_at(i) > 0 ==> f.sign_at(i)
                == 1) && (f.div_at(i) < 0 ==> f.sign_at(i) == -1) by {
                assert(o.div_at(i) > 0 ==> o.sign_at(i) == 1);
                assert(o.div_at(i) < 0 ==> o.sign_at(i) == -1);
            }
            assert forall|i: int| 0 <= i < 3 implies #[trigger] divides(
                f.unit as int,
                f.border_at(i),
            ) by {
                assert(divides(o.unit as int, o.border_at(i)));
            }
            assert(axis_step(o, f, bi));
        }
        true
    }
}

/// Differences of moderate integer rationals stay representable.
proof fn lemma_small_sub_fits(a: Rat, b: Rat)
    requires
        rat_small_int(a),
        rat_small_int(b),
    ensures
        i128::MIN < a.n * b.d <= i128::MAX,
        i128::MIN < b.n * a.d <= i128::MAX,
        i128::MIN < a.n * b.d - b.n * a.d <= i128::MAX,
        i128::MIN < a.d * b.d <= i128::MAX,
{
}

/// The floor of a nonnegative rational by a positive integer is nonnegative
/// and no larger than the numerator.
proof fn lemma_floor_of_nonneg(a: Rat, unit: i64)
    requires
        rat_wf(a),
        a.n >= 0,
        unit >= 1,
    ensures
        0 <= qfloor_div(qv(a), unit as int) <= a.n as int,
{
    lemma_mul_strictly_positive(a.d as int, unit as int);
    lemma_fundamental_div_mod(a.n as int, a.d as int * unit as int);
    lemma_mod_bound(a.n as int, a.d as int * unit as int);
    assert(0 <= qfloor_div(qv(a), unit as int) <= a.n as int) by (nonlinear_arith)
        requires
            a.n as int == (a.d as int * unit as int) * qfloor_div(qv(a), unit as int)
                + a.n as int % (a.d as int * unit as int),
            0 <= a.n as int % (a.d as int * unit as int) < a.d as int * unit as int,
            a.d as int * unit as int >= 1,
            a.n >= 0,
    ;
}

} // verus!
