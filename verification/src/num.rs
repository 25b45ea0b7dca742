//! Exact rational scalars over `i128`, with overflow-checked operations.
//!
//! A `Rat` is a fraction `n / d` with `d > 0`. Operations that could leave
//! the `i128` range return `None`; every `Some` result carries the exact
//! mathematical value, stated through the spec-level pair model `(int, int)`.

use vstd::prelude::*;
use vstd::arithmetic::div_mod::{
    lemma_fundamental_div_mod, lemma_fundamental_div_mod_converse, lemma_div_multiples_vanish,
};
use vstd::arithmetic::mul::lemma_mul_strictly_positive;

verus! {

/// `d` divides `n` exactly.
pub open spec fn divides(d: int, n: int) -> bool {
    exists|k: int| n == #[trigger] (k * d)
}

/// The greatest common divisor of `a` and `b` (Euclid's algorithm): a
/// positive common divisor that every common divisor divides.
pub fn common_divisor(a: u128, b: u128) -> (g: u128)
    requires
        b > 0,
    ensures
        g > 0,
        divides(g as int, a as int),
        divides(g as int, b as int),
        forall|dd: int|
            divides(dd, a as int) && divides(dd, b as int) ==> divides(dd, g as int),
{
    let mut x: u128 = a;
    let mut y: u128 = b;
    while y != 0
        invariant
            x > 0 || y > 0,
            forall|dd: int|
                divides(dd, x as int) && divides(dd, y as int) ==> divides(dd, a as int)
                    && divides(dd, b as int),
            forall|dd: int|
                divides(dd, a as int) && divides(dd, b as int) ==> divides(dd, x as int)
                    && divides(dd, y as int),
        decreases y,
    {
        let r: u128 = x % y;
        proof {
            let xi = x as int;
            let yi = y as int;
            let ri = r as int;
            lemma_fundamental_div_mod(xi, yi);
            assert forall|dd: int| divides(dd, yi) && divides(dd, ri) implies divides(
                dd,
                xi,
            ) by {
                let k1 = choose|k: int| yi == #[trigger] (k * dd);
                let k2 = choose|k: int| ri == #[trigger] (k * dd);
                assert(xi == ((xi / yi) * k1 + k2) * dd) by (nonlinear_arith)
                    requires
                        xi == yi * (xi / yi) + ri,
                        yi == k1 * dd,
                        ri == k2 * dd,
                ;
            }
            assert forall|dd: int| divides(dd, xi) && divides(dd, yi) implies divides(
                dd,
                ri,
            ) by {
                let k1 = choose|k: int| xi == #[trigger] (k * dd);
                let k2 = choose|k: int| yi == #[trigger] (k * dd);
                assert(ri == (k1 - (xi / yi) * k2) * dd) by (nonlinear_arith)
                    requires
                        xi == yi * (xi / yi) + ri,
                        xi == k1 * dd,
                        yi == k2 * dd,
                ;
            }
        }
        x = y;
        y = r;
    }
    proof {
        assert(divides(x as int, x as int)) by {
            assert(x as int == 1 * (x as int));
        }
        assert(divides(x as int, y as int)) by {
            assert(y as int == 0 * (x as int));
        }
    }
    x
}

/// Divides `n` by a known exact divisor `g`, with the exact quotient.
fn quotient_exact(n: u128, g: u128) -> (q: u128)
    requires
        g > 0,
        divides(g as int, n as int),
    ensures
        n as int == q as int * g as int,
{
    proof {
        let k = choose|k: int| n as int == #[trigger] (k * (g as int));
        assert(k >= 0) by (nonlinear_arith)
            requires
                n as int == k * (g as int),
                n >= 0,
                g > 0,
        ;
        lemma_div_multiples_vanish(k, g as int);
        assert(n as int / g as int == k);
    }
    n / g
}

/// An exact rational number: `n / d` with `d > 0`.
///
/// `n` stays above `i128::MIN` so that its magnitude always fits an `i128`.
#[derive(Clone, Copy, Debug)]
pub struct Rat {
    pub n: i128,
    pub d: i128,
}

/// Well-formedness of a rational: positive denominator, negatable numerator.
pub open spec fn rat_wf(a: Rat) -> bool {
    a.d > 0 && a.n > i128::MIN
}

/// The spec-level value of a rational, as an unbounded numerator/denominator
/// pair.
pub open spec fn qv(a: Rat) -> (int, int) {
    (a.n as int, a.d as int)
}

/// Well-formed spec-level pair: positive denominator.
pub open spec fn qwf(a: (int, int)) -> bool {
    a.1 > 0
}

/// Equality of two rational pairs, by cross multiplication.
pub open spec fn qeq(a: (int, int), b: (int, int)) -> bool {
    a.0 * b.1 == b.0 * a.1
}

/// `a <= b` for rational pairs with positive denominators.
pub open spec fn qle(a: (int, int), b: (int, int)) -> bool {
    a.0 * b.1 <= b.0 * a.1
}

/// `a < b` for rational pairs with positive denominators.
pub open spec fn qlt(a: (int, int), b: (int, int)) -> bool {
    a.0 * b.1 < b.0 * a.1
}

/// Sum of two rational pairs.
pub open spec fn qadd(a: (int, int), b: (int, int)) -> (int, int) {
    (a.0 * b.1 + b.0 * a.1, a.1 * b.1)
}

/// Difference of two rational pairs.
pub open spec fn qsub(a: (int, int), b: (int, int)) -> (int, int) {
    (a.0 * b.1 - b.0 * a.1, a.1 * b.1)
}

/// Product of two rational pairs.
pub open spec fn qmul(a: (int, int), b: (int, int)) -> (int, int) {
    (a.0 * b.0, a.1 * b.1)
}

/// Quotient of two rational pairs (meaningful when `b.0 != 0`).
pub open spec fn qdiv(a: (int, int), b: (int, int)) -> (int, int) {
    if b.0 >= 0 {
        (a.0 * b.1, a.1 * b.0)
    } else {
        (-(a.0 * b.1), a.1 * -b.0)
    }
}

/// The integer value of a pair when it is a whole number times `u`:
/// floor of the pair divided by the positive integer `u`.
pub open spec fn qfloor_div(a: (int, int), u: int) -> int {
    a.0 / (a.1 * u)
}

impl Rat {
    /// The value of an integer as a rational.
    pub fn from_int(v: i64) -> (r: Rat)
        ensures
            rat_wf(r),
            qv(r) == (v as int, 1int),
    {
        Rat { n: v as i128, d: 1 }
    }

    /// Reduces the fraction `n / d` and normalizes it into a well-formed
    /// rational of the same value. Fails only for `n == i128::MIN`.
    pub fn build(n: i128, d: i128) -> (r: Option<Rat>)
        requires
            d > 0,
        ensures
            n > i128::MIN ==> r is Some,
            r matches Some(c) ==> rat_wf(c) && qeq(qv(c), (n as int, d as int)),
            r matches Some(c) ==> c.d <= d && iabs(c.n as int) <= iabs(n as int),
            r matches Some(c) ==> forall|e: int|
                e > 1 && divides(e, iabs(c.n as int)) ==> !divides(e, c.d as int),
    {
        if n == i128::MIN {
            return None;
        }
        let na: u128 = if n >= 0 {
            n as u128
        } else {
            (-n) as u128
        };
        let da: u128 = d as u128;
        let g: u128 = common_divisor(na, da);
        let nq: u128 = quotient_exact(na, g);
        let dq: u128 = quotient_exact(da, g);
        proof {
            // dq > 0 because dq * g == da > 0
            assert(dq > 0) by (nonlinear_arith)
                requires
                    da as int == dq as int * g as int,
                    da > 0,
                    g > 0,
            ;
            // nq fits i128 since nq * g == na <= i128::MAX as u128 and g >= 1
            assert(nq as int <= na as int) by (nonlinear_arith)
                requires
                    na as int == nq as int * g as int,
                    g >= 1,
                    nq >= 0,
            ;
            assert(dq as int <= da as int) by (nonlinear_arith)
                requires
                    da as int == dq as int * g as int,
                    g >= 1,
                    dq >= 0,
            ;
            // value preservation: (±nq) * d == n * dq
            assert((nq as int) * (d as int) == (na as int) * (dq as int))
                by (nonlinear_arith)
                requires
                    na as int == nq as int * g as int,
                    da as int == dq as int * g as int,
                    da as int == d as int,
            ;
        }
        proof {
            // the quotients by the greatest common divisor are coprime
            assert forall|e: int| e > 1 && divides(e, nq as int) implies !divides(
                e,
                dq as int,
            ) by {
                if divides(e, dq as int) {
                    let k1 = choose|k: int| nq as int == #[trigger] (k * e);
                    let k2 = choose|k: int| dq as int == #[trigger] (k * e);
                    let eg = e * (g as int);
                    assert(na as int == k1 * eg && da as int == k2 * eg) by (nonlinear_arith)
                        requires
                            na as int == nq as int * g as int,
                            da as int == dq as int * g as int,
                            nq as int == k1 * e,
                            dq as int == k2 * e,
                            eg == e * (g as int),
                    ;
                    assert(divides(eg, na as int));
                    assert(divides(eg, da as int));
                    assert(divides(eg, g as int));
                    let m = choose|k: int| g as int == #[trigger] (k * eg);
                    assert(false) by (nonlinear_arith)
                        requires
                            g as int == m * (e * (g as int)),
                            g > 0,
                            e > 1,
                    ;
                }
            }
        }
        let rn: i128 = if n >= 0 {
            nq as i128
        } else {
            -(nq as i128)
        };
        proof {
            assert(iabs(rn as int) == nq as int);
            if n < 0 {
                assert(rn as int * d as int == n as int * dq as int) by (nonlinear_arith)
                    requires
                        (nq as int) * (d as int) == (na as int) * (dq as int),
                        na as int == -(n as int),
                        rn as int == -(nq as int),
                ;
            }
        }
        Some(Rat { n: rn, d: dq as i128 })
    }

    /// Checked addition; any `Some` result is exactly the sum.
    pub fn add(&self, b: &Rat) -> (r: Option<Rat>)
        requires
            rat_wf(*self),
            rat_wf(*b),
        ensures
            r matches Some(c) ==> rat_wf(c) && qeq(qv(c), qadd(qv(*self), qv(*b))),
            r matches Some(c) ==> c.d <= self.d * b.d && iabs(c.n as int) <= iabs(
                self.n * b.d + b.n * self.d,
            ),
            within_i128(self.n * b.d) && within_i128(b.n * self.d) && within_i128(
                self.n * b.d + b.n * self.d,
            ) && within_i128(self.d * b.d) ==> r is Some,
    {
        let x = match self.n.checked_mul(b.d) {
            Some(v) => v,
            None => {
                return None;
            },
        };
        let y = match b.n.checked_mul(self.d) {
            Some(v) => v,
            None => {
                return None;
            },
        };
        let num = match x.checked_add(y) {
            Some(v) => v,
            None => {
                return None;
            },
        };
        let den = match self.d.checked_mul(b.d) {
            Some(v) => v,
            None => {
                return None;
            },
        };
        proof {
            lemma_mul_strictly_positive(self.d as int, b.d as int);
        }
        let built = Rat::build(num, den);
        proof {
            if built is Some {
                lemma_qeq_trans_scale(
                    qv(built->0),
                    (num as int, den as int),
                    qadd(qv(*self), qv(*b)),
                );
            }
        }
        built
    }

    /// Checked subtraction; any `Some` result is exactly the difference.
    pub fn sub(&self, b: &Rat) -> (r: Option<Rat>)
        requires
            rat_wf(*self),
            rat_wf(*b),
        ensures
            r matches Some(c) ==> rat_wf(c) && qeq(qv(c), qsub(qv(*self), qv(*b))),
            r matches Some(c) ==> c.d <= self.d * b.d && iabs(c.n as int) <= iabs(
                self.n * b.d - b.n * self.d,
            ),
            within_i128(self.n * b.d) && within_i128(b.n * self.d) && within_i128(
                self.n * b.d - b.n * self.d,
            ) && within_i128(self.d * b.d) ==> r is Some,
    {
        let x = match self.n.checked_mul(b.d) {
            Some(v) => v,
            None => {
                return None;
            },
        };
        let y = match b.n.checked_mul(self.d) {
            Some(v) => v,
            None => {
                return None;
            },
        };
        let num = match x.checked_sub(y) {
            Some(v) => v,
            None => {
                return None;
            },
        };
        let den = match self.d.checked_mul(b.d) {
            Some(v) => v,
            None => {
                return None;
            },
        };
        proof {
            lemma_mul_strictly_positive(self.d as int, b.d as int);
        }
        let built = Rat::build(num, den);
        proof {
            if built is Some {
                lemma_qeq_trans_scale(
                    qv(built->0),
                    (num as int, den as int),
                    qsub(qv(*self), qv(*b)),
                );
            }
        }
        built
    }

    /// Checked multiplication; any `Some` result is exactly the product.
    pub fn mul(&self, b: &Rat) -> (r: Option<Rat>)
        requires
            rat_wf(*self),
            rat_wf(*b),
        ensures
            r matches Some(c) ==> rat_wf(c) && qeq(qv(c), qmul(qv(*self), qv(*b))),
            r matches Some(c) ==> c.d <= self.d * b.d && iabs(c.n as int) <= iabs(self.n * b.n),
            within_i128(self.n * b.n) && within_i128(self.d * b.d) ==> r is Some,
    {
        let num = match self.n.checked_mul(b.n) {
            Some(v) => v,
            None => {
                return None;
            },
        };
        let den = match self.d.checked_mul(b.d) {
            Some(v) => v,
            None => {
                return None;
            },
        };
        proof {
            lemma_mul_strictly_positive(self.d as int, b.d as int);
        }
        let built = Rat::build(num, den);
        proof {
            if built is Some {
                lemma_qeq_trans_scale(
                    qv(built->0),
                    (num as int, den as int),
                    qmul(qv(*self), qv(*b)),
                );
            }
        }
        built
    }

    /// Checked division; any `Some` result `c` is exactly the quotient,
    /// stated by its defining property `c * b == self`.
    /// Division by zero is excluded by precondition.
    pub fn div(&self, b: &Rat) -> (r: Option<Rat>)
        requires
            rat_wf(*self),
            rat_wf(*b),
            b.n != 0,
        ensures
            r matches Some(c) ==> rat_wf(c) && qeq(qmul(qv(c), qv(*b)), qv(*self)),
            r matches Some(c) ==> c.d <= iabs(self.d * b.n) && iabs(c.n as int) <= iabs(
                self.n * b.d,
            ),
            within_i128(self.n * b.d) && within_i128(b.n * self.d)
                && within_i128(-(self.n * b.d)) && within_i128(-(self.d * b.n)) ==> r is Some,
    {
        let num0 = match self.n.checked_mul(b.d) {
            Some(v) => v,
            None => {
                return None;
            },
        };
        let den0 = match self.d.checked_mul(b.n) {
            Some(v) => v,
            None => {
                return None;
            },
        };
        let (num, den): (i128, i128) = if den0 >= 0 {
            (num0, den0)
        } else {
            if num0 == i128::MIN || den0 == i128::MIN {
                return None;
            }
            (-num0, -den0)
        };
        proof {
            assert(den > 0) by (nonlinear_arith)
                requires
                    den0 as int == self.d as int * b.n as int,
                    self.d > 0,
                    b.n != 0,
                    den0 >= 0 ==> den == den0,
                    den0 < 0 ==> den as int == -(den0 as int),
            ;
        }
        let built = Rat::build(num, den);
        proof {
            if built is Some {
                lemma_div_value(
                    (built->0).n as int,
                    (built->0).d as int,
                    num as int,
                    den as int,
                    self.n as int,
                    self.d as int,
                    b.n as int,
                    b.d as int,
                );
            }
        }
        built
    }

    /// The sign of the value: -1, 0 or 1.
    pub fn signum(&self) -> (s: i64)
        requires
            rat_wf(*self),
        ensures
            s == 1 <==> self.n > 0,
            s == 0 <==> self.n == 0,
            s == -1 <==> self.n < 0,
    {
        if self.n > 0 {
            1
        } else if self.n == 0 {
            0
        } else {
            -1
        }
    }

    /// Checked comparison `self <= b`.
    pub fn le(&self, b: &Rat) -> (r: Option<bool>)
        requires
            rat_wf(*self),
            rat_wf(*b),
        ensures
            r matches Some(v) ==> v == qle(qv(*self), qv(*b)),
            within_i128(self.n * b.d) && within_i128(b.n * self.d) ==> r is Some,
    {
        let x = match self.n.checked_mul(b.d) {
            Some(v) => v,
            None => {
                return None;
            },
        };
        let y = match b.n.checked_mul(self.d) {
            Some(v) => v,
            None => {
                return None;
            },
        };
        Some(x <= y)
    }

    /// Checked comparison `self < b`.
    pub fn lt(&self, b: &Rat) -> (r: Option<bool>)
        requires
            rat_wf(*self),
            rat_wf(*b),
        ensures
            r matches Some(v) ==> v == qlt(qv(*self), qv(*b)),
            within_i128(self.n * b.d) && within_i128(b.n * self.d) ==> r is Some,
    {
        let x = match self.n.checked_mul(b.d) {
            Some(v) => v,
            None => {
                return None;
            },
        };
        let y = match b.n.checked_mul(self.d) {
            Some(v) => v,
            None => {
                return None;
            },
        };
        Some(x < y)
    }

    /// Exact value equality (not structural equality).
    pub fn eqv(&self, b: &Rat) -> (r: Option<bool>)
        requires
            rat_wf(*self),
            rat_wf(*b),
        ensures
            r matches Some(v) ==> v == qeq(qv(*self), qv(*b)),
            within_i128(self.n * b.d) && within_i128(b.n * self.d) ==> r is Some,
    {
        let x = match self.n.checked_mul(b.d) {
            Some(v) => v,
            None => {
                return None;
            },
        };
        let y = match b.n.checked_mul(self.d) {
            Some(v) => v,
            None => {
                return None;
            },
        };
        Some(x == y)
    }
}

/// Euclidean quotient and remainder of `n` by a positive divisor, computed
/// through unsigned division so that no signed overflow can occur.
pub fn divmod_pos(n: i128, d: i128) -> (qr: (i128, i128))
    requires
        d > 0,
        n > i128::MIN,
    ensures
        qr.0 == n as int / d as int,
        qr.1 == n as int % d as int,
        n as int == qr.0 * d + qr.1,
        0 <= qr.1 < d,
{
    let du: u128 = d as u128;
    if n >= 0 {
        let q: u128 = (n as u128) / du;
        let r: u128 = (n as u128) % du;
        proof {
            assert(q as int <= n as int) by (nonlinear_arith)
                requires
                    q as int == n as int / d as int,
                    n >= 0,
                    d > 0,
            ;
            lemma_fundamental_div_mod(n as int, d as int);
            assert(n as int == (q as int) * d + r) by (nonlinear_arith)
                requires
                    n as int == d * (n as int / d as int) + n as int % d as int,
                    q as int == n as int / d as int,
                    r as int == n as int % d as int,
            ;
        }
        (q as i128, r as i128)
    } else {
        let m: u128 = (-n) as u128;
        let k: u128 = (m - 1) / du;
        let rr: u128 = (m - 1) % du;
        proof {
            assert(k as int <= m as int - 1) by (nonlinear_arith)
                requires
                    k as int == (m as int - 1) / (d as int),
                    m >= 1,
                    d > 0,
            ;
        }
        let q: i128 = -((k as i128) + 1);
        let r: i128 = (d - 1) - (rr as i128);
        proof {
            lemma_fundamental_div_mod(m as int - 1, d as int);
            assert(n as int == (q as int) * d + r) by (nonlinear_arith)
                requires
                    m as int - 1 == d * (k as int) + (rr as int),
                    n as int == -(m as int),
                    q as int == -((k as int) + 1),
                    r as int == d - 1 - rr as int,
            ;
            lemma_fundamental_div_mod_converse(n as int, d as int, q as int, r as int);
        }
        (q, r)
    }
}

impl Rat {
    /// Floor of the value divided by a positive integer `u`, together with
    /// whether the value is an exact multiple of `u`.
    pub fn floor_by(&self, u: i64) -> (r: Option<(i128, bool)>)
        requires
            rat_wf(*self),
            u >= 1,
        ensures
            r matches Some(f) ==> {
                &&& f.0 == qfloor_div(qv(*self), u as int)
                &&& (f.1 <==> qv(*self).0 % (qv(*self).1 * u) == 0)
            },
            within_i128(self.d * u) ==> r is Some,
    {
        let dd = match self.d.checked_mul(u as i128) {
            Some(v) => v,
            None => {
                return None;
            },
        };
        proof {
            lemma_mul_strictly_positive(self.d as int, u as int);
        }
        let qr = divmod_pos(self.n, dd);
        Some((qr.0, qr.1 == 0))
    }
}

/// Magnitude of an integer (spec).
pub open spec fn iabs(x: int) -> int {
    if x >= 0 {
        x
    } else {
        -x
    }
}

impl Rat {
    /// The magnitude of the value.
    pub fn abs(&self) -> (r: Rat)
        requires
            rat_wf(*self),
        ensures
            rat_wf(r),
            qv(r) == (iabs(self.n as int), self.d as int),
    {
        if self.n >= 0 {
            Rat { n: self.n, d: self.d }
        } else {
            Rat { n: -self.n, d: self.d }
        }
    }
}

/// The value `x` fits an `i128` with its negation.
pub open spec fn within_i128(x: int) -> bool {
    i128::MIN < x <= i128::MAX
}

/// Magnitude of a rational pair.
pub open spec fn qabs(a: (int, int)) -> (int, int) {
    (iabs(a.0), a.1)
}

/// Sign of a rational pair with a positive denominator: -1, 0 or 1.
pub open spec fn qsgn(a: (int, int)) -> int {
    if a.0 > 0 {
        1
    } else if a.0 == 0 {
        0
    } else {
        -1
    }
}

/// Equal rationals have equal magnitudes.
pub proof fn lemma_qabs_congr(a: (int, int), b: (int, int))
    requires
        qeq(a, b),
        a.1 > 0,
        b.1 > 0,
    ensures
        qeq(qabs(a), qabs(b)),
        qsgn(a) == qsgn(b),
{
    assert(iabs(a.0) * b.1 == iabs(b.0) * a.1 && qsgn(a) == qsgn(b)) by (nonlinear_arith)
        requires
            a.0 * b.1 == b.0 * a.1,
            a.1 > 0,
            b.1 > 0,
            iabs(a.0) == if a.0 >= 0 { a.0 } else { -a.0 },
            iabs(b.0) == if b.0 >= 0 { b.0 } else { -b.0 },
            qsgn(a) == (if a.0 > 0 { 1int } else if a.0 == 0 { 0int } else { -1int }),
            qsgn(b) == (if b.0 > 0 { 1int } else if b.0 == 0 { 0int } else { -1int }),
    ;
}

/// Strict order composed with weak order is strict, over positive
/// denominators.
pub proof fn lemma_q_order_trans(a: (int, int), b: (int, int), c: (int, int))
    requires
        a.1 > 0,
        b.1 > 0,
        c.1 > 0,
        qlt(a, b),
        qle(b, c),
    ensures
        qlt(a, c),
{
    assert(a.0 * c.1 < c.0 * a.1) by (nonlinear_arith)
        requires
            a.0 * b.1 < b.0 * a.1,
            b.0 * c.1 <= c.0 * b.1,
            a.1 > 0,
            b.1 > 0,
            c.1 > 0,
    ;
}

/// Sums with equal second operands are equal.
#[verifier::rlimit(60)]
pub proof fn lemma_qadd_congr_r(a: (int, int), b: (int, int), b2: (int, int))
    requires
        qeq(b, b2),
        a.1 > 0,
        b.1 > 0,
        b2.1 > 0,
    ensures
        qeq(qadd(a, b), qadd(a, b2)),
{
    assert((a.0 * b.1 + b.0 * a.1) * (a.1 * b2.1) == (a.0 * b2.1 + b2.0 * a.1) * (a.1 * b.1))
        by (nonlinear_arith)
        requires
            b.0 * b2.1 == b2.0 * b.1,
    ;
}

/// Products with equal second operands are equal.
pub proof fn lemma_qmul_congr_r(a: (int, int), b: (int, int), b2: (int, int))
    requires
        qeq(b, b2),
        a.1 > 0,
        b.1 > 0,
        b2.1 > 0,
    ensures
        qeq(qmul(a, b), qmul(a, b2)),
{
    assert((a.0 * b.0) * (a.1 * b2.1) == (a.0 * b2.0) * (a.1 * b.1)) by (nonlinear_arith)
        requires
            b.0 * b2.1 == b2.0 * b.1,
    ;
}

/// Products of pairwise equal rationals are equal.
pub proof fn lemma_qmul_congr2(a: (int, int), a2: (int, int), b: (int, int), b2: (int, int))
    requires
        qeq(a, a2),
        qeq(b, b2),
        a.1 > 0,
        a2.1 > 0,
        b.1 > 0,
        b2.1 > 0,
    ensures
        qeq(qmul(a, b), qmul(a2, b2)),
{
    lemma_qmul_congr(a, a2, b);
    lemma_qmul_congr_r(a2, b, b2);
    lemma_mul_strictly_positive(a2.1, b.1);
    lemma_qeq_trans(qmul(a, b), qmul(a2, b), qmul(a2, b2));
}

/// Sums of pairwise equal rationals are equal.
pub proof fn lemma_qadd_congr2(a: (int, int), a2: (int, int), b: (int, int), b2: (int, int))
    requires
        qeq(a, a2),
        qeq(b, b2),
        a.1 > 0,
        a2.1 > 0,
        b.1 > 0,
        b2.1 > 0,
    ensures
        qeq(qadd(a, b), qadd(a2, b2)),
{
    lemma_qadd_congr(a, a2, b);
    lemma_qadd_congr_r(a2, b, b2);
    lemma_mul_strictly_positive(a2.1, b.1);
    lemma_qeq_trans(qadd(a, b), qadd(a2, b), qadd(a2, b2));
}

/// Transitivity of rational-pair equality, through a pair with a nonzero
/// denominator.
pub proof fn lemma_qeq_trans(a: (int, int), b: (int, int), c: (int, int))
    requires
        qeq(a, b),
        qeq(b, c),
        b.1 != 0,
    ensures
        qeq(a, c),
{
    assert(a.0 * c.1 == c.0 * a.1) by (nonlinear_arith)
        requires
            a.0 * b.1 == b.0 * a.1,
            b.0 * c.1 == c.0 * b.1,
            b.1 != 0,
    ;
}

/// Sums of equal rationals are equal.
#[verifier::rlimit(100)]
#[verifier::spinoff_prover]
pub proof fn lemma_qadd_congr(a: (int, int), a2: (int, int), b: (int, int))
    requires
        qeq(a, a2),
        a.1 > 0,
        a2.1 > 0,
        b.1 > 0,
    ensures
        qeq(qadd(a, b), qadd(a2, b)),
{
    assert((a.0 * b.1 + b.0 * a.1) * (a2.1 * b.1) == (a2.0 * b.1 + b.0 * a2.1) * (a.1 * b.1))
        by (nonlinear_arith)
        requires
            a.0 * a2.1 == a2.0 * a.1,
    ;
}

/// Products with equal rationals are equal.
pub proof fn lemma_qmul_congr(a: (int, int), a2: (int, int), b: (int, int))
    requires
        qeq(a, a2),
        a.1 > 0,
        a2.1 > 0,
        b.1 > 0,
    ensures
        qeq(qmul(a, b), qmul(a2, b)),
{
    assert((a.0 * b.0) * (a2.1 * b.1) == (a2.0 * b.0) * (a.1 * b.1)) by (nonlinear_arith)
        requires
            a.0 * a2.1 == a2.0 * a.1,
    ;
}

/// Order between rationals does not depend on the representative pairs.
pub proof fn lemma_qlt_congr(a: (int, int), a2: (int, int), b: (int, int), b2: (int, int))
    requires
        qeq(a, a2),
        qeq(b, b2),
        a.1 > 0,
        a2.1 > 0,
        b.1 > 0,
        b2.1 > 0,
    ensures
        qlt(a, b) == qlt(a2, b2),
        qle(a, b) == qle(a2, b2),
{
    assert((a.0 * b.1 < b.0 * a.1) == (a2.0 * b2.1 < b2.0 * a2.1)) by (nonlinear_arith)
        requires
            a.0 * a2.1 == a2.0 * a.1,
            b.0 * b2.1 == b2.0 * b.1,
            a.1 > 0,
            a2.1 > 0,
            b.1 > 0,
            b2.1 > 0,
    ;
    assert((a.0 * b.1 <= b.0 * a.1) == (a2.0 * b2.1 <= b2.0 * a2.1)) by (nonlinear_arith)
        requires
            a.0 * a2.1 == a2.0 * a.1,
            b.0 * b2.1 == b2.0 * b.1,
            a.1 > 0,
            a2.1 > 0,
            b.1 > 0,
            b2.1 > 0,
    ;
}

/// A rational `t` with `t * b == c` is the quotient `c / b` (division is
/// unique for a nonzero divisor).
pub proof fn lemma_qdiv_unique(t: (int, int), b: (int, int), c: (int, int))
    requires
        qeq(qmul(t, b), c),
        b.0 != 0,
        t.1 > 0,
        b.1 > 0,
        c.1 > 0,
    ensures
        qeq(t, qdiv(c, b)),
{
    if b.0 >= 0 {
        assert(t.0 * (c.1 * b.0) == (c.0 * b.1) * t.1) by (nonlinear_arith)
            requires
                (t.0 * b.0) * c.1 == c.0 * (t.1 * b.1),
                b.0 != 0,
        ;
    } else {
        assert(t.0 * (c.1 * -b.0) == -(c.0 * b.1) * t.1) by (nonlinear_arith)
            requires
                (t.0 * b.0) * c.1 == c.0 * (t.1 * b.1),
                b.0 != 0,
        ;
    }
}

/// The floor of a rational divided by a positive integer does not depend on
/// the representative pair, and neither does exactness of the division.
pub proof fn lemma_qfloor_congr(a: (int, int), b: (int, int), u: int)
    requires
        qeq(a, b),
        a.1 > 0,
        b.1 > 0,
        u >= 1,
    ensures
        qfloor_div(a, u) == qfloor_div(b, u),
        (a.0 % (a.1 * u) == 0) == (b.0 % (b.1 * u) == 0),
{
    let d1 = a.1 * u;
    let d2 = b.1 * u;
    assert(d1 > 0 && d2 > 0) by (nonlinear_arith)
        requires
            a.1 > 0,
            b.1 > 0,
            u >= 1,
            d1 == a.1 * u,
            d2 == b.1 * u,
    ;
    lemma_fundamental_div_mod(a.0, d1);
    let q = a.0 / d1;
    let r = a.0 % d1;
    let rr = b.0 - q * d2;
    assert(r * d2 == d1 * rr) by (nonlinear_arith)
        requires
            a.0 * b.1 == b.0 * a.1,
            a.0 == d1 * q + r,
            rr == b.0 - q * d2,
            d1 == a.1 * u,
            d2 == b.1 * u,
    ;
    assert(0 <= rr < d2) by (nonlinear_arith)
        requires
            r * d2 == d1 * rr,
            0 <= r < d1,
            d1 > 0,
            d2 > 0,
    ;
    assert(b.0 == q * d2 + rr);
    lemma_fundamental_div_mod_converse(b.0, d2, q, rr);
    assert((r == 0) == (rr == 0)) by (nonlinear_arith)
        requires
            r * d2 == d1 * rr,
            d1 > 0,
            d2 > 0,
            0 <= r,
            0 <= rr,
    ;
}

/// The quotient `c = (num, den)` of `a / b`, built from the cross products of
/// the operands, satisfies the defining property `c * b == a`.
proof fn lemma_div_value(
    cn: int,
    cd: int,
    num: int,
    den: int,
    an: int,
    ad: int,
    bn: int,
    bd: int,
)
    requires
        cd > 0,
        ad > 0,
        bd > 0,
        bn != 0,
        den > 0,
        cn * den == num * cd,
        (num == an * bd && den == ad * bn) || (num == -(an * bd) && den == -(ad * bn)),
    ensures
        (cn * bn) * ad == an * (cd * bd),
{
    assert((cn * bn) * ad == an * (cd * bd)) by (nonlinear_arith)
        requires
            cd > 0,
            ad > 0,
            bd > 0,
            bn != 0,
            den > 0,
            cn * den == num * cd,
            (num == an * bd && den == ad * bn) || (num == -(an * bd) && den == -(ad * bn)),
    ;
}

/// If `a` equals the raw fraction `m` (cross multiplication) and `m` equals a
/// target pair `t` the same way, then `a` equals `t`: transitivity of `qeq`
/// through a pair with positive denominator.
proof fn lemma_qeq_trans_scale(a: (int, int), m: (int, int), t: (int, int))
    requires
        qeq(a, m),
        m.0 == t.0 && m.1 == t.1 || qeq(m, t),
        a.1 > 0,
        m.1 > 0,
        t.1 > 0,
    ensures
        qeq(a, t),
{
    assert(a.0 * t.1 == t.0 * a.1) by (nonlinear_arith)
        requires
            a.0 * m.1 == m.0 * a.1,
            m.0 * t.1 == t.0 * m.1,
            a.1 > 0,
            m.1 > 0,
            t.1 > 0,
    ;
}

} // verus!
