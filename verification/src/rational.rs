//! Exact rational numbers over `i64`, the scalar type of the whole library.
//!
//! A value is a fraction `num / den` with `den >= 1`. Specifications speak
//! about a rational as a pair of unbounded integers `(int, int)`; the exec
//! operations reduce their result by a common divisor and return `None`
//! when even the reduced result does not fit in `i64`.

use vstd::prelude::*;
use vstd::arithmetic::div_mod::lemma_fundamental_div_mod;

verus! {

/// An exact rational number `num / den` with `den >= 1`.
#[derive(Clone, Copy, Debug)]
pub struct Rat {
    num: i64,
    den: i64,
}

impl View for Rat {
    type V = (int, int);

    closed spec fn view(&self) -> (int, int) {
        (self.num as int, self.den as int)
    }
}

/// A pair stands for a rational number when its denominator is positive.
pub open spec fn rq_wf(p: (int, int)) -> bool {
    p.1 >= 1
}

/// Both components of the pair fit in `i64` (with a positive denominator).
pub open spec fn rq_fits(p: (int, int)) -> bool {
    &&& -0x8000_0000_0000_0000 <= p.0 <= 0x7fff_ffff_ffff_ffff
    &&& 1 <= p.1 <= 0x7fff_ffff_ffff_ffff
}

pub open spec fn rq_add(a: (int, int), b: (int, int)) -> (int, int) {
    (a.0 * b.1 + b.0 * a.1, a.1 * b.1)
}

pub open spec fn rq_sub(a: (int, int), b: (int, int)) -> (int, int) {
    (a.0 * b.1 - b.0 * a.1, a.1 * b.1)
}

pub open spec fn rq_mul(a: (int, int), b: (int, int)) -> (int, int) {
    (a.0 * b.0, a.1 * b.1)
}

/// Division keeps the denominator positive by moving the divisor's sign
/// into the numerator. Meaningful only for `b.0 != 0`.
pub open spec fn rq_div(a: (int, int), b: (int, int)) -> (int, int) {
    if b.0 < 0 {
        (-(a.0 * b.1), -(a.1 * b.0))
    } else {
        (a.0 * b.1, a.1 * b.0)
    }
}

/// The two pairs stand for the same rational number (for positive denominators).
pub open spec fn rq_eq(a: (int, int), b: (int, int)) -> bool {
    a.0 * b.1 == b.0 * a.1
}

/// `a <= b` as rationals (for positive denominators).
pub open spec fn rq_le(a: (int, int), b: (int, int)) -> bool {
    a.0 * b.1 <= b.0 * a.1
}

/// `a < b` as rationals (for positive denominators).
pub open spec fn rq_lt(a: (int, int), b: (int, int)) -> bool {
    a.0 * b.1 < b.0 * a.1
}

pub open spec fn rq_min(a: (int, int), b: (int, int)) -> (int, int) {
    if rq_le(a, b) {
        a
    } else {
        b
    }
}

pub open spec fn rq_max(a: (int, int), b: (int, int)) -> (int, int) {
    if rq_le(a, b) {
        b
    } else {
        a
    }
}

pub open spec fn abs_i(x: int) -> int {
    if x >= 0 {
        x
    } else {
        -x
    }
}

/// A sufficient bound under which `Rat::add` (and `sub`) is guaranteed to succeed.
pub open spec fn add_fits(a: (int, int), b: (int, int)) -> bool {
    &&& abs_i(a.0) * b.1 + abs_i(b.0) * a.1 <= 0x7fff_ffff_ffff_ffff
    &&& a.1 * b.1 <= 0x7fff_ffff_ffff_ffff
}

/// A sufficient bound under which `Rat::mul` is guaranteed to succeed.
pub open spec fn mul_fits(a: (int, int), b: (int, int)) -> bool {
    &&& abs_i(a.0) * abs_i(b.0) <= 0x7fff_ffff_ffff_ffff
    &&& a.1 * b.1 <= 0x7fff_ffff_ffff_ffff
}

/// A sufficient bound under which `Rat::div` is guaranteed to succeed.
pub open spec fn div_fits(a: (int, int), b: (int, int)) -> bool {
    &&& b.0 != 0
    &&& abs_i(a.0) * b.1 <= 0x7fff_ffff_ffff_ffff
    &&& a.1 * abs_i(b.0) <= 0x7fff_ffff_ffff_ffff
}

proof fn lemma_i64_prod(a: int, b: int)
    by (nonlinear_arith)
    requires
        -0x8000_0000_0000_0000 <= a <= 0x7fff_ffff_ffff_ffff,
        -0x8000_0000_0000_0000 <= b <= 0x7fff_ffff_ffff_ffff,
    ensures
        -0x4000_0000_0000_0000_0000_0000_0000_0000 <= a * b
            <= 0x4000_0000_0000_0000_0000_0000_0000_0000,
{
}

proof fn lemma_num_den_prod(a: int, b: int)
    by (nonlinear_arith)
    requires
        -0x8000_0000_0000_0000 <= a <= 0x7fff_ffff_ffff_ffff,
        1 <= b <= 0x7fff_ffff_ffff_ffff,
    ensures
        -0x3fff_ffff_ffff_ffff_8000_0000_0000_0000 <= a * b
            <= 0x3fff_ffff_ffff_ffff_8000_0000_0000_0000,
        abs_i(a * b) == abs_i(a) * b,
{
}

proof fn lemma_den_prod(a: int, b: int)
    by (nonlinear_arith)
    requires
        1 <= a <= 0x7fff_ffff_ffff_ffff,
        1 <= b <= 0x7fff_ffff_ffff_ffff,
    ensures
        1 <= a * b <= 0x3fff_ffff_ffff_ffff_0000_0000_0000_0001,
    // (2^63 - 1)^2
{
}

proof fn lemma_reduce_cross(qn: int, qd: int, g: int, mn: int, md: int)
    by (nonlinear_arith)
    requires
        qn * g == mn,
        qd * g == md,
    ensures
        qn * md == mn * qd,
{
}

proof fn lemma_pos_factor_sign(a: int, b: int)
    by (nonlinear_arith)
    requires
        a >= 1,
    ensures
        (a * b < 0 <==> b < 0),
        (a * b == 0 <==> b == 0),
        (a * b > 0 <==> b > 0),
{
}

/// Euclid's algorithm; only positivity of the result is relied upon, since
/// `reduce` checks divisibility of its candidate at run time.
fn gcd_u128(a: u128, b: u128) -> (g: u128)
    requires
        b >= 1,
    ensures
        g >= 1,
{
    let mut x: u128 = a;
    let mut y: u128 = b;
    while y != 0
        invariant
            x >= 1 || y >= 1,
        decreases y,
    {
        let r: u128 = x % y;
        x = y;
        y = r;
    }
    x
}

/// Divide `n` and `d` by a common divisor. The result stands for the same
/// rational, its components are no larger in magnitude, and its denominator
/// stays positive.
fn reduce(n: i128, d: i128) -> (r: (i128, i128))
    requires
        1 <= d,
        -0x7fff_ffff_ffff_ffff_ffff_ffff_ffff_ffff <= n,
    ensures
        1 <= r.1 <= d,
        n >= 0 ==> 0 <= r.0 <= n,
        n < 0 ==> n <= r.0 < 0,
        r.0 * d == n * r.1,
{
    let neg: bool = n < 0;
    let mn: u128 = if neg {
        (-n) as u128
    } else {
        n as u128
    };
    let md: u128 = d as u128;
    let g: u128 = gcd_u128(mn, md);
    proof {
        lemma_fundamental_div_mod(mn as int, g as int);
        lemma_fundamental_div_mod(md as int, g as int);
        assert((mn as int) / (g as int) * (g as int) == (g as int) * ((mn as int) / (g as int)))
            by (nonlinear_arith);
        assert((md as int) / (g as int) * (g as int) == (g as int) * ((md as int) / (g as int)))
            by (nonlinear_arith);
        assert(0 <= (mn as int) % (g as int) < g as int) by (nonlinear_arith)
            requires g >= 1;
        assert(0 <= (md as int) % (g as int) < g as int) by (nonlinear_arith)
            requires g >= 1;
    }
    let qn: u128 = mn / g;
    let qd: u128 = md / g;
    if qn * g == mn && qd * g == md && qd >= 1 && qn <= 0x7fff_ffff_ffff_ffff_ffff_ffff_ffff_ffff {
        proof {
            lemma_reduce_cross(qn as int, qd as int, g as int, mn as int, md as int);
            lemma_pos_factor_sign(g as int, qd as int);
            lemma_pos_factor_sign(g as int, qn as int);
            assert(qd as int <= md as int) by (nonlinear_arith)
                requires qd as int * (g as int) == md as int, g as int >= 1, qd as int >= 0;
            assert(qn as int <= mn as int) by (nonlinear_arith)
                requires qn as int * (g as int) == mn as int, g as int >= 1, qn as int >= 0;
        }
        let rn: i128 = if neg {
            -(qn as i128)
        } else {
            qn as i128
        };
        let rd: i128 = qd as i128;
        proof {
            if neg {
                assert(rn as int * (d as int) == n as int * (rd as int)) by (nonlinear_arith)
                    requires
                        qn as int * (md as int) == mn as int * (qd as int),
                        rn as int == -(qn as int),
                        n as int == -(mn as int),
                        md as int == d as int,
                        rd as int == qd as int;
                assert(rn < 0) by {
                    assert(qn as int >= 1) by (nonlinear_arith)
                        requires qn as int * (g as int) == mn as int, mn as int >= 1, g as int >= 1, qn as int >= 0;
                }
            } else {
                assert(rn as int * (d as int) == n as int * (rd as int)) by (nonlinear_arith)
                    requires
                        qn as int * (md as int) == mn as int * (qd as int),
                        rn as int == qn as int,
                        n as int == mn as int,
                        md as int == d as int,
                        rd as int == qd as int;
            }
        }
        (rn, rd)
    } else {
        (n, d)
    }
}

/// Fit a cross-multiplied pair into a `Rat`, reducing first.
fn build(n: i128, d: i128) -> (r: Option<Rat>)
    requires
        1 <= d,
        -0x7fff_ffff_ffff_ffff_ffff_ffff_ffff_ffff <= n,
    ensures
        r is Some ==> r->0.wf() && rq_eq(r->0@, (n as int, d as int)),
        r is Some ==> abs_i(r->0@.0) <= abs_i(n as int) && r->0@.1 <= d as int,
        rq_fits((n as int, d as int)) ==> r is Some,
{
    let (rn, rd) = reduce(n, d);
    if -0x8000_0000_0000_0000i128 <= rn && rn <= 0x7fff_ffff_ffff_ffffi128
        && rd <= 0x7fff_ffff_ffff_ffffi128 {
        Some(Rat { num: rn as i64, den: rd as i64 })
    } else {
        None
    }
}

impl Rat {
    /// The denominator is positive.
    pub open spec fn wf(self) -> bool {
        rq_wf(self@)
    }

    /// Build the fraction `num / den`.
    pub fn new(num: i64, den: i64) -> (r: Rat)
        requires
            den >= 1,
        ensures
            r.wf(),
            r@ == (num as int, den as int),
    {
        Rat { num, den }
    }

    pub fn zero() -> (r: Rat)
        ensures
            r.wf(),
            r@ == (0int, 1int),
    {
        Rat { num: 0, den: 1 }
    }

    pub fn from_int(n: i64) -> (r: Rat)
        ensures
            r.wf(),
            r@ == (n as int, 1int),
    {
        Rat { num: n, den: 1 }
    }

    pub fn numer(&self) -> (r: i64)
        ensures
            r as int == self@.0,
    {
        self.num
    }

    pub fn denom(&self) -> (r: i64)
        ensures
            r as int == self@.1,
    {
        self.den
    }

    /// Exact sum; `None` only when even the reduced result leaves `i64`.
    pub fn add(&self, other: &Rat) -> (r: Option<Rat>)
        requires
            self.wf(),
            other.wf(),
        ensures
            r is Some ==> r->0.wf() && rq_eq(r->0@, rq_add(self@, other@)),
            r is Some ==> abs_i(r->0@.0) <= abs_i(rq_add(self@, other@).0) && r->0@.1 <= rq_add(
                self@,
                other@,
            ).1,
            add_fits(self@, other@) ==> r is Some,
    {
        proof {
            lemma_num_den_prod(self.num as int, other.den as int);
            lemma_num_den_prod(other.num as int, self.den as int);
            lemma_den_prod(self.den as int, other.den as int);
        }
        let n: i128 = (self.num as i128) * (other.den as i128)
            + (other.num as i128) * (self.den as i128);
        let d: i128 = (self.den as i128) * (other.den as i128);
        build(n, d)
    }

    /// Exact difference; `None` only when even the reduced result leaves `i64`.
    pub fn sub(&self, other: &Rat) -> (r: Option<Rat>)
        requires
            self.wf(),
            other.wf(),
        ensures
            r is Some ==> r->0.wf() && rq_eq(r->0@, rq_sub(self@, other@)),
            r is Some ==> abs_i(r->0@.0) <= abs_i(rq_sub(self@, other@).0) && r->0@.1 <= rq_sub(
                self@,
                other@,
            ).1,
            add_fits(self@, other@) ==> r is Some,
    {
        proof {
            lemma_num_den_prod(self.num as int, other.den as int);
            lemma_num_den_prod(other.num as int, self.den as int);
            lemma_den_prod(self.den as int, other.den as int);
        }
        let n: i128 = (self.num as i128) * (other.den as i128)
            - (other.num as i128) * (self.den as i128);
        let d: i128 = (self.den as i128) * (other.den as i128);
        build(n, d)
    }

    /// Exact product; `None` only when even the reduced result leaves `i64`.
    pub fn mul(&self, other: &Rat) -> (r: Option<Rat>)
        requires
            self.wf(),
            other.wf(),
        ensures
            r is Some ==> r->0.wf() && rq_eq(r->0@, rq_mul(self@, other@)),
            r is Some ==> abs_i(r->0@.0) <= abs_i(rq_mul(self@, other@).0) && r->0@.1 <= rq_mul(
                self@,
                other@,
            ).1,
            mul_fits(self@, other@) ==> r is Some,
    {
        proof {
            lemma_i64_prod(self.num as int, other.num as int);
            lemma_den_prod(self.den as int, other.den as int);
            assert(abs_i(self.num as int * (other.num as int)) == abs_i(self.num as int) * abs_i(
                other.num as int,
            )) by (nonlinear_arith);
        }
        let n: i128 = (self.num as i128) * (other.num as i128);
        let d: i128 = (self.den as i128) * (other.den as i128);
        build(n, d)
    }

    /// Exact quotient. `None` when the divisor is zero, or when even the
    /// reduced result leaves `i64`.
    pub fn div(&self, other: &Rat) -> (r: Option<Rat>)
        requires
            self.wf(),
            other.wf(),
        ensures
            r is Some ==> r->0.wf() && rq_eq(r->0@, rq_div(self@, other@)),
            r is Some ==> abs_i(r->0@.0) <= abs_i(rq_div(self@, other@).0) && r->0@.1 <= rq_div(
                self@,
                other@,
            ).1,
            div_fits(self@, other@) ==> r is Some,
            other@.0 == 0 ==> r is None,
    {
        if other.num == 0 {
            return None;
        }
        proof {
            lemma_num_den_prod(self.num as int, other.den as int);
            lemma_i64_prod(self.den as int, other.num as int);
            lemma_pos_factor_sign(self.den as int, other.num as int);
            assert(abs_i(self.den as int * (other.num as int)) == self.den as int * abs_i(
                other.num as int,
            )) by (nonlinear_arith)
                requires self.den as int >= 1;
        }
        let n0: i128 = (self.num as i128) * (other.den as i128);
        let d0: i128 = (self.den as i128) * (other.num as i128);
        let (n, d) = if d0 < 0 {
            (-n0, -d0)
        } else {
            (n0, d0)
        };
        build(n, d)
    }

    /// Exact equality test of the rationals the two values stand for.
    pub fn equal(&self, other: &Rat) -> (r: bool)
        requires
            self.wf(),
            other.wf(),
        ensures
            r == rq_eq(self@, other@),
    {
        proof {
            lemma_num_den_prod(self.num as int, other.den as int);
            lemma_num_den_prod(other.num as int, self.den as int);
        }
        (self.num as i128) * (other.den as i128) == (other.num as i128) * (self.den as i128)
    }

    /// Exact `<=` on the rationals the two values stand for.
    pub fn le(&self, other: &Rat) -> (r: bool)
        requires
            self.wf(),
            other.wf(),
        ensures
            r == rq_le(self@, other@),
    {
        proof {
            lemma_num_den_prod(self.num as int, other.den as int);
            lemma_num_den_prod(other.num as int, self.den as int);
        }
        (self.num as i128) * (other.den as i128) <= (other.num as i128) * (self.den as i128)
    }

    /// Exact `<` on the rationals the two values stand for.
    pub fn lt(&self, other: &Rat) -> (r: bool)
        requires
            self.wf(),
            other.wf(),
        ensures
            r == rq_lt(self@, other@),
    {
        proof {
            lemma_num_den_prod(self.num as int, other.den as int);
            lemma_num_den_prod(other.num as int, self.den as int);
        }
        (self.num as i128) * (other.den as i128) < (other.num as i128) * (self.den as i128)
    }

    /// The smaller of the two rationals (the value itself, not a copy rescaled).
    pub fn min(&self, other: &Rat) -> (r: Rat)
        requires
            self.wf(),
            other.wf(),
        ensures
            r.wf(),
            r@ == rq_min(self@, other@),
    {
        if self.le(other) {
            *self
        } else {
            *other
        }
    }

    /// The larger of the two rationals.
    pub fn max(&self, other: &Rat) -> (r: Rat)
        requires
            self.wf(),
            other.wf(),
        ensures
            r.wf(),
            r@ == rq_max(self@, other@),
    {
        if self.le(other) {
            *other
        } else {
            *self
        }
    }
}

} // verus!
// The exec operations return reduced fractions, so callers relate results to
// specification pairs by `rq_eq` rather than by equality of components. The
// lemmas below let a caller carry `rq_eq` through each arithmetic step.

verus! {

/// Sums, differences and products of rationals keep a positive denominator;
/// so does a quotient by a nonzero rational.
pub proof fn lemma_rq_ops_wf(a: (int, int), b: (int, int))
    by (nonlinear_arith)
    requires
        rq_wf(a),
        rq_wf(b),
    ensures
        rq_wf(rq_add(a, b)),
        rq_wf(rq_sub(a, b)),
        rq_wf(rq_mul(a, b)),
        b.0 != 0 ==> rq_wf(rq_div(a, b)),
{
}

/// `rq_eq` is transitive across a well-formed middle pair.
pub proof fn lemma_rq_trans(a: (int, int), b: (int, int), c: (int, int))
    by (nonlinear_arith)
    requires
        rq_wf(b),
        rq_eq(a, b),
        rq_eq(b, c),
    ensures
        rq_eq(a, c),
{
}

/// Addition is a congruence with respect to `rq_eq`.
#[verifier::rlimit(100)]
pub proof fn lemma_add_cong(a: (int, int), a2: (int, int), b: (int, int), b2: (int, int))
    requires
        rq_eq(a, a2),
        rq_eq(b, b2),
    ensures
        rq_eq(rq_add(a, b), rq_add(a2, b2)),
{
    lemma_cross_term(a.0, a.1, a2.0, a2.1, b.1, b2.1);
    lemma_cross_term(b.0, b.1, b2.0, b2.1, a.1, a2.1);
    assert((b.0 * a.1) * (a2.1 * b2.1) == (b.0 * a.1) * (b2.1 * a2.1)) by (nonlinear_arith);
    assert((b2.0 * a2.1) * (b.1 * a.1) == (b2.0 * a2.1) * (a.1 * b.1)) by (nonlinear_arith);
    assert((a.0 * b.1 + b.0 * a.1) * (a2.1 * b2.1) == (a.0 * b.1) * (a2.1 * b2.1) + (b.0 * a.1) * (
    a2.1 * b2.1)) by (nonlinear_arith);
    assert((a2.0 * b2.1 + b2.0 * a2.1) * (a.1 * b.1) == (a2.0 * b2.1) * (a.1 * b.1) + (b2.0 * a2.1)
        * (a.1 * b.1)) by (nonlinear_arith);
}

/// One cross term of a congruence proof: from `x/u == x2/u2` it follows that
/// `(x*v)*(u2*v2) == (x2*v2)*(u*v)`.
proof fn lemma_cross_term(x: int, u: int, x2: int, u2: int, v: int, v2: int)
    requires
        x * u2 == x2 * u,
    ensures
        (x * v) * (u2 * v2) == (x2 * v2) * (u * v),
{
    assert((x * v) * (u2 * v2) == (x * u2) * (v * v2)) by (nonlinear_arith);
    assert((x * u2) * (v * v2) == (x2 * u) * (v * v2)) by (nonlinear_arith)
        requires
            x * u2 == x2 * u,
    ;
    assert((x2 * u) * (v * v2) == (x2 * v2) * (u * v)) by (nonlinear_arith);
}

/// Subtraction is a congruence with respect to `rq_eq`.
#[verifier::rlimit(100)]
pub proof fn lemma_sub_cong(a: (int, int), a2: (int, int), b: (int, int), b2: (int, int))
    requires
        rq_eq(a, a2),
        rq_eq(b, b2),
    ensures
        rq_eq(rq_sub(a, b), rq_sub(a2, b2)),
{
    lemma_cross_term(a.0, a.1, a2.0, a2.1, b.1, b2.1);
    lemma_cross_term(b.0, b.1, b2.0, b2.1, a.1, a2.1);
    assert((b.0 * a.1) * (a2.1 * b2.1) == (b.0 * a.1) * (b2.1 * a2.1)) by (nonlinear_arith);
    assert((b2.0 * a2.1) * (b.1 * a.1) == (b2.0 * a2.1) * (a.1 * b.1)) by (nonlinear_arith);
    assert((a.0 * b.1 - b.0 * a.1) * (a2.1 * b2.1) == (a.0 * b.1) * (a2.1 * b2.1) - (b.0 * a.1) * (
    a2.1 * b2.1)) by (nonlinear_arith);
    assert((a2.0 * b2.1 - b2.0 * a2.1) * (a.1 * b.1) == (a2.0 * b2.1) * (a.1 * b.1) - (b2.0 * a2.1)
        * (a.1 * b.1)) by (nonlinear_arith);
}

/// Multiplication is a congruence with respect to `rq_eq`.
pub proof fn lemma_mul_cong(a: (int, int), a2: (int, int), b: (int, int), b2: (int, int))
    requires
        rq_eq(a, a2),
        rq_eq(b, b2),
    ensures
        rq_eq(rq_mul(a, b), rq_mul(a2, b2)),
{
    assert((a.0 * b.0) * (a2.1 * b2.1) == (a2.0 * b2.0) * (a.1 * b.1))
        by (nonlinear_arith)
        requires
            a.0 * a2.1 == a2.0 * a.1,
            b.0 * b2.1 == b2.0 * b.1,
    ;
}

/// Division by a nonzero rational is a congruence with respect to `rq_eq`.
pub proof fn lemma_div_cong(a: (int, int), a2: (int, int), b: (int, int), b2: (int, int))
    requires
        rq_wf(b),
        rq_wf(b2),
        b.0 != 0,
        rq_eq(a, a2),
        rq_eq(b, b2),
    ensures
        rq_eq(rq_div(a, b), rq_div(a2, b2)),
        b2.0 != 0,
{
    assert(b2.0 != 0 && (b.0 < 0 <==> b2.0 < 0)) by (nonlinear_arith)
        requires
            b.1 >= 1,
            b2.1 >= 1,
            b.0 != 0,
            b.0 * b2.1 == b2.0 * b.1,
    ;
    assert((a.0 * b.1) * (a2.1 * b2.0) == (a2.0 * b2.1) * (a.1 * b.0)) by (nonlinear_arith)
        requires
            a.0 * a2.1 == a2.0 * a.1,
            b.0 * b2.1 == b2.0 * b.1,
    ;
    if b.0 < 0 {
        assert((-(a.0 * b.1)) * (-(a2.1 * b2.0)) == (-(a2.0 * b2.1)) * (-(a.1 * b.0)))
            by (nonlinear_arith)
            requires
                (a.0 * b.1) * (a2.1 * b2.0) == (a2.0 * b2.1) * (a.1 * b.0),
        ;
    }
}

/// Carry `rq_eq` through an addition: a result equivalent to `a + b` is
/// also equivalent to `a2 + b2` for equivalent operands.
pub proof fn lemma_add_step(r: (int, int), a: (int, int), a2: (int, int), b: (int, int), b2: (int, int))
    requires
        rq_wf(a),
        rq_wf(b),
        rq_eq(r, rq_add(a, b)),
        rq_eq(a, a2),
        rq_eq(b, b2),
    ensures
        rq_eq(r, rq_add(a2, b2)),
{
    lemma_add_cong(a, a2, b, b2);
    lemma_rq_ops_wf(a, b);
    lemma_rq_trans(r, rq_add(a, b), rq_add(a2, b2));
}

/// Carry `rq_eq` through a subtraction.
pub proof fn lemma_sub_step(r: (int, int), a: (int, int), a2: (int, int), b: (int, int), b2: (int, int))
    requires
        rq_wf(a),
        rq_wf(b),
        rq_eq(r, rq_sub(a, b)),
        rq_eq(a, a2),
        rq_eq(b, b2),
    ensures
        rq_eq(r, rq_sub(a2, b2)),
{
    lemma_sub_cong(a, a2, b, b2);
    lemma_rq_ops_wf(a, b);
    lemma_rq_trans(r, rq_sub(a, b), rq_sub(a2, b2));
}

/// Carry `rq_eq` through a multiplication.
pub proof fn lemma_mul_step(r: (int, int), a: (int, int), a2: (int, int), b: (int, int), b2: (int, int))
    requires
        rq_wf(a),
        rq_wf(b),
        rq_eq(r, rq_mul(a, b)),
        rq_eq(a, a2),
        rq_eq(b, b2),
    ensures
        rq_eq(r, rq_mul(a2, b2)),
{
    lemma_mul_cong(a, a2, b, b2);
    lemma_rq_ops_wf(a, b);
    lemma_rq_trans(r, rq_mul(a, b), rq_mul(a2, b2));
}

/// Carry `rq_eq` through a division by a nonzero rational.
pub proof fn lemma_div_step(r: (int, int), a: (int, int), a2: (int, int), b: (int, int), b2: (int, int))
    requires
        rq_wf(a),
        rq_wf(b),
        rq_wf(b2),
        b.0 != 0,
        rq_eq(r, rq_div(a, b)),
        rq_eq(a, a2),
        rq_eq(b, b2),
    ensures
        rq_eq(r, rq_div(a2, b2)),
        b2.0 != 0,
{
    lemma_div_cong(a, a2, b, b2);
    lemma_rq_ops_wf(a, b);
    lemma_rq_trans(r, rq_div(a, b), rq_div(a2, b2));
}

/// Comparisons respect `rq_eq`.
pub proof fn lemma_cmp_step(a: (int, int), a2: (int, int), b: (int, int), b2: (int, int))
    by (nonlinear_arith)
    requires
        rq_wf(a),
        rq_wf(a2),
        rq_wf(b),
        rq_wf(b2),
        rq_eq(a, a2),
        rq_eq(b, b2),
    ensures
        rq_le(a, b) == rq_le(a2, b2),
        rq_lt(a, b) == rq_lt(a2, b2),
        rq_eq(a, b) == rq_eq(a2, b2),
{
}

} // verus!

verus! {

/// A quotient of a well-formed rational never has a negative denominator.
pub proof fn lemma_div_den_nonneg(a: (int, int), b: (int, int))
    by (nonlinear_arith)
    requires
        rq_wf(a),
    ensures
        rq_div(a, b).1 >= 0,
{
}

/// Strict order composes with weak order across a well-formed middle pair.
pub proof fn lemma_rq_lt_le_trans(a: (int, int), b: (int, int), c: (int, int))
    by (nonlinear_arith)
    requires
        rq_wf(a),
        rq_wf(b),
        rq_wf(c),
        rq_lt(a, b),
        rq_le(b, c),
    ensures
        rq_lt(a, c),
{
}

/// Weak order composes with strict order across a well-formed middle pair.
pub proof fn lemma_rq_le_lt_trans(a: (int, int), b: (int, int), c: (int, int))
    by (nonlinear_arith)
    requires
        rq_wf(a),
        rq_wf(b),
        rq_wf(c),
        rq_le(a, b),
        rq_lt(b, c),
    ensures
        rq_lt(a, c),
{
}

/// Weak order composes across a well-formed middle pair.
pub proof fn lemma_rq_le_trans(a: (int, int), b: (int, int), c: (int, int))
    by (nonlinear_arith)
    requires
        rq_wf(a),
        rq_wf(b),
        rq_wf(c),
        rq_le(a, b),
        rq_le(b, c),
    ensures
        rq_le(a, c),
{
}

/// `rq_min` and `rq_max` respect `rq_eq`, and their result is one of the
/// (well-formed) operands.
pub proof fn lemma_minmax_cong(a: (int, int), a2: (int, int), b: (int, int), b2: (int, int))
    requires
        rq_wf(a),
        rq_wf(a2),
        rq_wf(b),
        rq_wf(b2),
        rq_eq(a, a2),
        rq_eq(b, b2),
    ensures
        rq_wf(rq_min(a, b)),
        rq_wf(rq_max(a, b)),
        rq_wf(rq_min(a2, b2)),
        rq_wf(rq_max(a2, b2)),
        rq_eq(rq_min(a, b), rq_min(a2, b2)),
        rq_eq(rq_max(a, b), rq_max(a2, b2)),
{
    lemma_cmp_step(a, a2, b, b2);
}

} // verus!

verus! {

/// Quotients with one positive divisor add numerator-wise:
/// `a/h + b/h` stands for `(a + b)/h`.
pub proof fn lemma_div_add_same(a: (int, int), b: (int, int), h: (int, int))
    requires
        h.0 > 0,
    ensures
        rq_eq(rq_add(rq_div(a, h), rq_div(b, h)), rq_div(rq_add(a, b), h)),
{
    assert(a.0 * h.1 * (b.1 * h.0) == (h.1 * h.0) * (a.0 * b.1)) by (nonlinear_arith);
    assert(b.0 * h.1 * (a.1 * h.0) == (h.1 * h.0) * (b.0 * a.1)) by (nonlinear_arith);
    assert((h.1 * h.0) * (a.0 * b.1) + (h.1 * h.0) * (b.0 * a.1) == (h.1 * h.0) * (a.0 * b.1 + b.0
        * a.1)) by (nonlinear_arith);
    assert(((h.1 * h.0) * (a.0 * b.1 + b.0 * a.1)) * ((a.1 * b.1) * h.0) == ((a.0 * b.1 + b.0 * a.1)
        * h.1) * ((a.1 * h.0) * (b.1 * h.0))) by (nonlinear_arith);
    assert(rq_add(rq_div(a, h), rq_div(b, h)).0 == a.0 * h.1 * (b.1 * h.0) + b.0 * h.1 * (a.1
        * h.0));
    assert(rq_add(rq_div(a, h), rq_div(b, h)).1 == (a.1 * h.0) * (b.1 * h.0));
}

/// Differences telescope: `(p - x) + (x - q)` stands for `p - q`.
pub proof fn lemma_telescope(p: (int, int), x: (int, int), q: (int, int))
    ensures
        rq_eq(rq_add(rq_sub(p, x), rq_sub(x, q)), rq_sub(p, q)),
{
    let d = p.0 * q.1 - q.0 * p.1;
    assert((p.0 * x.1 - x.0 * p.1) * (x.1 * q.1) == (p.0 * x.1) * (x.1 * q.1) - (x.0 * p.1) * (x.1
        * q.1)) by (nonlinear_arith);
    assert((p.0 * x.1) * (x.1 * q.1) == (x.1 * x.1) * (p.0 * q.1)) by (nonlinear_arith);
    assert((x.0 * p.1) * (x.1 * q.1) == (x.0 * q.1) * (p.1 * x.1)) by (nonlinear_arith);
    assert((x.0 * q.1 - q.0 * x.1) * (p.1 * x.1) == (x.0 * q.1) * (p.1 * x.1) - (q.0 * x.1) * (p.1
        * x.1)) by (nonlinear_arith);
    assert((q.0 * x.1) * (p.1 * x.1) == (x.1 * x.1) * (q.0 * p.1)) by (nonlinear_arith);
    assert((x.1 * x.1) * (p.0 * q.1) - (x.1 * x.1) * (q.0 * p.1) == (x.1 * x.1) * d)
        by (nonlinear_arith)
        requires
            d == p.0 * q.1 - q.0 * p.1,
    ;
    assert(((x.1 * x.1) * d) * (p.1 * q.1) == d * ((p.1 * x.1) * (x.1 * q.1)))
        by (nonlinear_arith);
}

} // verus!

verus! {

/// `v` stays within `bound`: the numerator in magnitude, the positive
/// denominator from above. Bound pairs combine with the `rq_*` operations
/// themselves, so a caller can precompute the bound of a whole expression.
pub open spec fn bnd(v: (int, int), bound: (int, int)) -> bool {
    &&& abs_i(v.0) <= bound.0
    &&& 1 <= v.1 <= bound.1
}

/// Sums and differences of bounded rationals are bounded by the sum of the
/// bounds; within a fitting bound the exec operations are guaranteed to
/// succeed.
pub proof fn lemma_bnd_add(v: (int, int), w: (int, int), bv: (int, int), bw: (int, int))
    by (nonlinear_arith)
    requires
        bnd(v, bv),
        bnd(w, bw),
        bv.0 >= 0,
        bw.0 >= 0,
    ensures
        bnd(rq_add(v, w), rq_add(bv, bw)),
        bnd(rq_sub(v, w), rq_add(bv, bw)),
        bnd(rq_sub(w, v), rq_add(bv, bw)),
        rq_fits(rq_add(bv, bw)) ==> add_fits(v, w) && add_fits(w, v),
{
}

/// Products of bounded rationals are bounded by the product of the bounds.
pub proof fn lemma_bnd_mul(v: (int, int), w: (int, int), bv: (int, int), bw: (int, int))
    by (nonlinear_arith)
    requires
        bnd(v, bv),
        bnd(w, bw),
        bv.0 >= 0,
        bw.0 >= 0,
    ensures
        bnd(rq_mul(v, w), rq_mul(bv, bw)),
        rq_fits(rq_mul(bv, bw)) ==> mul_fits(v, w),
{
}

/// Quotients of bounded rationals are bounded by the quotient of the
/// bounds, for a nonzero divisor.
pub proof fn lemma_bnd_div(v: (int, int), w: (int, int), bv: (int, int), bw: (int, int))
    by (nonlinear_arith)
    requires
        bnd(v, bv),
        bnd(w, bw),
        bv.0 >= 0,
        bw.0 >= 0,
        w.0 != 0,
    ensures
        bnd(rq_div(v, w), rq_div(bv, bw)),
        rq_fits(rq_div(bv, bw)) ==> div_fits(v, w),
{
}

} // verus!
