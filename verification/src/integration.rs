//! Fixed-order numerical integration on `[-1, 1]`, mapped to an arbitrary
//! interval by the standard affine change of variables.
//!
//! The rule is a five-point open Newton-Cotes rule with rational nodes
//! `-2/3, -1/3, 0, 1/3, 2/3` and weights `11/10, -7/5, 13/5, -7/5, 11/10`;
//! it integrates polynomials up to degree five exactly, and it never
//! samples the interval endpoints. Degenerate ranges (`hi <= lo`)
//! integrate to zero.

use vstd::prelude::*;
use crate::rational::Rat;
use crate::rational::rq_wf;
use crate::rational::rq_eq;
use crate::rational::rq_le;
use crate::rational::rq_add;
use crate::rational::rq_sub;
use crate::rational::rq_mul;
use crate::rational::rq_div;
use crate::rational::lemma_rq_ops_wf;
use crate::rational::lemma_add_step;
use crate::rational::lemma_sub_step;
use crate::rational::lemma_mul_step;
use crate::rational::lemma_div_step;
use crate::rational::lemma_add_cong;
use crate::rational::lemma_sub_cong;
use crate::rational::lemma_mul_cong;
use crate::rational::lemma_div_cong;
use crate::rational::lemma_rq_trans;

verus! {

/// A scalar function of one rational variable that the integrator can sample.
pub trait Integrand: Sized {
    /// Validity of the integrand's data.
    spec fn inv(&self) -> bool;

    /// The exact value at `x`, as a rational pair.
    spec fn spec_at(&self, x: (int, int)) -> (int, int);

    /// The value depends only on the rational `x` stands for, not on the
    /// pair representing it.
    proof fn congruent(&self, x: (int, int), x2: (int, int))
        requires
            self.inv(),
            rq_wf(x),
            rq_wf(x2),
            rq_eq(x, x2),
        ensures
            rq_eq(self.spec_at(x), self.spec_at(x2)),
            rq_wf(self.spec_at(x)) <==> rq_wf(self.spec_at(x2)),
    ;

    fn at(&self, x: &Rat) -> (r: Option<Rat>)
        requires
            self.inv(),
            x.wf(),
        ensures
            r is Some ==> r->0.wf() && rq_wf(self.spec_at(x@)) && rq_eq(r->0@, self.spec_at(x@)),
    ;
}

/// The `k`-th node of the rule on `[-1, 1]`.
pub open spec fn quad_node(k: int) -> (int, int) {
    if k == 0 {
        (-2int, 3int)
    } else if k == 1 {
        (-1int, 3int)
    } else if k == 2 {
        (0int, 1int)
    } else if k == 3 {
        (1int, 3int)
    } else {
        (2int, 3int)
    }
}

/// The `k`-th weight of the rule on `[-1, 1]`.
pub open spec fn quad_weight(k: int) -> (int, int) {
    if k == 2 {
        (13int, 5int)
    } else if k == 1 || k == 3 {
        (-7int, 5int)
    } else {
        (11int, 10int)
    }
}

/// The `k`-th sample point `((lo + hi) + node * (hi - lo)) / 2`.
pub open spec fn spec_sample(lo: (int, int), hi: (int, int), k: int) -> (int, int) {
    rq_div(rq_add(rq_add(lo, hi), rq_mul(quad_node(k), rq_sub(hi, lo))), (2int, 1int))
}

/// The `k`-th weighted sample `weight * f(sample)`.
pub open spec fn spec_quad_term<F: Integrand>(f: F, lo: (int, int), hi: (int, int), k: int) -> (
    int,
    int,
) {
    rq_mul(quad_weight(k), f.spec_at(spec_sample(lo, hi, k)))
}

/// The accumulated weighted samples over the first `k` rule points.
pub open spec fn spec_quad_sum<F: Integrand>(f: F, lo: (int, int), hi: (int, int), k: int) -> (
    int,
    int,
)
    decreases k,
{
    if k <= 0 {
        (0int, 1int)
    } else {
        rq_add(spec_quad_sum(f, lo, hi, k - 1), spec_quad_term(f, lo, hi, k - 1))
    }
}

/// The full approximation `sum * (hi - lo) / 2`.
pub open spec fn spec_integral<F: Integrand>(f: F, lo: (int, int), hi: (int, int)) -> (int, int) {
    rq_div(rq_mul(spec_quad_sum(f, lo, hi, 5), rq_sub(hi, lo)), (2int, 1int))
}

/// The sample points of the rule are well-formed rationals.
pub proof fn lemma_sample_wf(lo: (int, int), hi: (int, int), k: int)
    requires
        rq_wf(lo),
        rq_wf(hi),
    ensures
        rq_wf(spec_sample(lo, hi, k)),
{
    lemma_rq_ops_wf(lo, hi);
    lemma_rq_ops_wf(hi, lo);
    lemma_rq_ops_wf(quad_node(k), rq_sub(hi, lo));
    lemma_rq_ops_wf(rq_add(lo, hi), rq_mul(quad_node(k), rq_sub(hi, lo)));
    lemma_rq_ops_wf(
        rq_add(rq_add(lo, hi), rq_mul(quad_node(k), rq_sub(hi, lo))),
        (2int, 1int),
    );
}

/// The exec node and weight of the `k`-th rule point.
fn quad_point(k: usize) -> (r: (Rat, Rat))
    requires
        k < 5,
    ensures
        r.0.wf(),
        r.1.wf(),
        r.0@ == quad_node(k as int),
        r.1@ == quad_weight(k as int),
{
    if k == 0 {
        (Rat::new(-2, 3), Rat::new(11, 10))
    } else if k == 1 {
        (Rat::new(-1, 3), Rat::new(-7, 5))
    } else if k == 2 {
        (Rat::new(0, 1), Rat::new(13, 5))
    } else if k == 3 {
        (Rat::new(1, 3), Rat::new(-7, 5))
    } else {
        (Rat::new(2, 3), Rat::new(11, 10))
    }
}

/// Approximate the definite integral of `f` over `[lo, hi]` with the fixed
/// rule. A degenerate range (`hi <= lo`) yields exactly zero; otherwise a
/// `Some` result is exactly the rule's value. `None` means some exact
/// intermediate left the scalar range.
pub fn integrate<F: Integrand>(f: &F, lo: &Rat, hi: &Rat) -> (r: Option<Rat>)
    requires
        f.inv(),
        lo.wf(),
        hi.wf(),
    ensures
        rq_le(hi@, lo@) ==> r is Some && r->0@ == (0int, 1int),
        r is Some ==> r->0.wf(),
        !rq_le(hi@, lo@) && r is Some ==> rq_wf(spec_integral(*f, lo@, hi@)) && rq_eq(
            r->0@,
            spec_integral(*f, lo@, hi@),
        ),
{
    if hi.le(lo) {
        return Some(Rat::zero());
    }
    let two = Rat::new(2, 1);
    let mut sum = Rat::zero();
    let mut k: usize = 0;
    while k < 5
        invariant
            f.inv(),
            lo.wf(),
            hi.wf(),
            sum.wf(),
            two.wf(),
            two@ == (2int, 1int),
            !rq_le(hi@, lo@),
            k <= 5,
            rq_wf(spec_quad_sum(*f, lo@, hi@, k as int)),
            rq_eq(sum@, spec_quad_sum(*f, lo@, hi@, k as int)),
        decreases 5 - k,
    {
        let (node, w) = quad_point(k);
        let s1 = match lo.add(hi) {
            Some(v) => v,
            None => { return None; },
        };
        let s2 = match hi.sub(lo) {
            Some(v) => v,
            None => { return None; },
        };
        let s3 = match node.mul(&s2) {
            Some(v) => v,
            None => { return None; },
        };
        let s4 = match s1.add(&s3) {
            Some(v) => v,
            None => { return None; },
        };
        let x = match s4.div(&two) {
            Some(v) => v,
            None => { return None; },
        };
        let y = match f.at(&x) {
            Some(v) => v,
            None => { return None; },
        };
        let t = match w.mul(&y) {
            Some(v) => v,
            None => { return None; },
        };
        let next = match sum.add(&t) {
            Some(v) => v,
            None => { return None; },
        };
        proof {
            let kc = k as int;
            let sc = spec_sample(lo@, hi@, kc);
            lemma_rq_ops_wf(lo@, hi@);
            lemma_rq_ops_wf(hi@, lo@);
            lemma_rq_ops_wf(quad_node(kc), rq_sub(hi@, lo@));
            lemma_rq_ops_wf(rq_add(lo@, hi@), rq_mul(quad_node(kc), rq_sub(hi@, lo@)));
            lemma_sample_wf(lo@, hi@, kc);
            lemma_mul_step(s3@, node@, quad_node(kc), s2@, rq_sub(hi@, lo@));
            lemma_add_step(s4@, s1@, rq_add(lo@, hi@), s3@, rq_mul(quad_node(kc), rq_sub(hi@, lo@)));
            lemma_div_step(
                x@,
                s4@,
                rq_add(rq_add(lo@, hi@), rq_mul(quad_node(kc), rq_sub(hi@, lo@))),
                two@,
                (2int, 1int),
            );
            // the sampled value depends only on the rational, not on the pair
            f.congruent(x@, sc);
            lemma_rq_trans(y@, f.spec_at(x@), f.spec_at(sc));
            lemma_mul_step(t@, w@, quad_weight(kc), y@, f.spec_at(sc));
            lemma_rq_ops_wf(quad_weight(kc), f.spec_at(sc));
            lemma_add_step(
                next@,
                sum@,
                spec_quad_sum(*f, lo@, hi@, kc),
                t@,
                spec_quad_term(*f, lo@, hi@, kc),
            );
            lemma_rq_ops_wf(spec_quad_sum(*f, lo@, hi@, kc), spec_quad_term(*f, lo@, hi@, kc));
        }
        sum = next;
        k = k + 1;
    }
    let s2 = match hi.sub(lo) {
        Some(v) => v,
        None => { return None; },
    };
    let m = match sum.mul(&s2) {
        Some(v) => v,
        None => { return None; },
    };
    let res = match m.div(&two) {
        Some(v) => v,
        None => { return None; },
    };
    proof {
        lemma_rq_ops_wf(hi@, lo@);
        lemma_rq_ops_wf(spec_quad_sum(*f, lo@, hi@, 5), rq_sub(hi@, lo@));
        lemma_rq_ops_wf(rq_mul(spec_quad_sum(*f, lo@, hi@, 5), rq_sub(hi@, lo@)), (2int, 1int));
        lemma_mul_step(m@, sum@, spec_quad_sum(*f, lo@, hi@, 5), s2@, rq_sub(hi@, lo@));
        lemma_rq_ops_wf(spec_quad_sum(*f, lo@, hi@, 5), rq_sub(hi@, lo@));
        lemma_div_step(
            res@,
            m@,
            rq_mul(spec_quad_sum(*f, lo@, hi@, 5), rq_sub(hi@, lo@)),
            two@,
            (2int, 1int),
        );
    }
    Some(res)
}

/// `x^k`, as an exact rational pair.
pub open spec fn rq_pow(x: (int, int), k: nat) -> (int, int)
    decreases k,
{
    if k == 0 {
        (1int, 1int)
    } else {
        rq_mul(rq_pow(x, (k - 1) as nat), x)
    }
}

/// Powers are well-formed and depend only on the rational `x` stands for.
pub proof fn lemma_pow_congruent(x: (int, int), x2: (int, int), k: nat)
    requires
        rq_wf(x),
        rq_wf(x2),
        rq_eq(x, x2),
    ensures
        rq_wf(rq_pow(x, k)),
        rq_wf(rq_pow(x2, k)),
        rq_eq(rq_pow(x, k), rq_pow(x2, k)),
    decreases k,
{
    if k == 0 {
    } else {
        lemma_pow_congruent(x, x2, (k - 1) as nat);
        lemma_rq_ops_wf(rq_pow(x, (k - 1) as nat), x);
        lemma_rq_ops_wf(rq_pow(x2, (k - 1) as nat), x2);
        lemma_mul_cong(rq_pow(x, (k - 1) as nat), rq_pow(x2, (k - 1) as nat), x, x2);
    }
}

/// The monomial `x^exponent`, the integrand the rule's exactness is
/// usually checked against.
pub struct Monomial {
    pub exponent: usize,
}

impl Integrand for Monomial {
    open spec fn inv(&self) -> bool {
        true
    }

    open spec fn spec_at(&self, x: (int, int)) -> (int, int) {
        rq_pow(x, self.exponent as nat)
    }

    proof fn congruent(&self, x: (int, int), x2: (int, int)) {
        lemma_pow_congruent(x, x2, self.exponent as nat);
    }

    fn at(&self, x: &Rat) -> (r: Option<Rat>) {
        let mut acc = Rat::from_int(1);
        let mut i: usize = 0;
        while i < self.exponent
            invariant
                x.wf(),
                acc.wf(),
                i <= self.exponent,
                rq_wf(rq_pow(x@, i as nat)),
                rq_eq(acc@, rq_pow(x@, i as nat)),
            decreases self.exponent - i,
        {
            let next = match acc.mul(x) {
                Some(v) => v,
                None => { return None; },
            };
            proof {
                lemma_mul_step(next@, acc@, rq_pow(x@, i as nat), x@, x@);
                lemma_rq_ops_wf(rq_pow(x@, i as nat), x@);
            }
            acc = next;
            i = i + 1;
        }
        proof {
            lemma_pow_congruent(x@, x@, self.exponent as nat);
        }
        Some(acc)
    }
}

} // verus!

verus! {

proof fn lemma_sample_congruent(lo: (int, int), hi: (int, int), lo2: (int, int), hi2: (int, int), k: int)
    requires
        rq_wf(lo),
        rq_wf(hi),
        rq_wf(lo2),
        rq_wf(hi2),
        rq_eq(lo, lo2),
        rq_eq(hi, hi2),
    ensures
        rq_eq(spec_sample(lo, hi, k), spec_sample(lo2, hi2, k)),
{
    lemma_add_cong(lo, lo2, hi, hi2);
    lemma_sub_cong(hi, hi2, lo, lo2);
    lemma_mul_cong(quad_node(k), quad_node(k), rq_sub(hi, lo), rq_sub(hi2, lo2));
    lemma_add_cong(
        rq_add(lo, hi),
        rq_add(lo2, hi2),
        rq_mul(quad_node(k), rq_sub(hi, lo)),
        rq_mul(quad_node(k), rq_sub(hi2, lo2)),
    );
    lemma_div_cong(
        rq_add(rq_add(lo, hi), rq_mul(quad_node(k), rq_sub(hi, lo))),
        rq_add(rq_add(lo2, hi2), rq_mul(quad_node(k), rq_sub(hi2, lo2))),
        (2int, 1int),
        (2int, 1int),
    );
}

proof fn lemma_quad_sum_congruent<F: Integrand>(
    f: F,
    lo: (int, int),
    hi: (int, int),
    lo2: (int, int),
    hi2: (int, int),
    k: int,
)
    requires
        f.inv(),
        rq_wf(lo),
        rq_wf(hi),
        rq_wf(lo2),
        rq_wf(hi2),
        rq_eq(lo, lo2),
        rq_eq(hi, hi2),
    ensures
        rq_eq(spec_quad_sum(f, lo, hi, k), spec_quad_sum(f, lo2, hi2, k)),
    decreases k,
{
    if k <= 0 {
    } else {
        lemma_quad_sum_congruent(f, lo, hi, lo2, hi2, k - 1);
        lemma_sample_congruent(lo, hi, lo2, hi2, k - 1);
        lemma_sample_wf(lo, hi, k - 1);
        lemma_sample_wf(lo2, hi2, k - 1);
        f.congruent(spec_sample(lo, hi, k - 1), spec_sample(lo2, hi2, k - 1));
        lemma_mul_cong(
            quad_weight(k - 1),
            quad_weight(k - 1),
            f.spec_at(spec_sample(lo, hi, k - 1)),
            f.spec_at(spec_sample(lo2, hi2, k - 1)),
        );
        lemma_add_cong(
            spec_quad_sum(f, lo, hi, k - 1),
            spec_quad_sum(f, lo2, hi2, k - 1),
            spec_quad_term(f, lo, hi, k - 1),
            spec_quad_term(f, lo2, hi2, k - 1),
        );
    }
}

/// The rule's value depends only on the rationals the interval endpoints
/// stand for, not on the pairs representing them.
pub proof fn lemma_integral_congruent<F: Integrand>(
    f: F,
    lo: (int, int),
    hi: (int, int),
    lo2: (int, int),
    hi2: (int, int),
)
    requires
        f.inv(),
        rq_wf(lo),
        rq_wf(hi),
        rq_wf(lo2),
        rq_wf(hi2),
        rq_eq(lo, lo2),
        rq_eq(hi, hi2),
    ensures
        rq_eq(spec_integral(f, lo, hi), spec_integral(f, lo2, hi2)),
{
    lemma_quad_sum_congruent(f, lo, hi, lo2, hi2, 5);
    lemma_sub_cong(hi, hi2, lo, lo2);
    lemma_mul_cong(
        spec_quad_sum(f, lo, hi, 5),
        spec_quad_sum(f, lo2, hi2, 5),
        rq_sub(hi, lo),
        rq_sub(hi2, lo2),
    );
    lemma_div_cong(
        rq_mul(spec_quad_sum(f, lo, hi, 5), rq_sub(hi, lo)),
        rq_mul(spec_quad_sum(f, lo2, hi2, 5), rq_sub(hi2, lo2)),
        (2int, 1int),
        (2int, 1int),
    );
}

} // verus!
