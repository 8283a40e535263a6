//! Weak-form assembly and solution of a one-dimensional boundary-value
//! problem by the Galerkin method.
//!
//! A `Problem` supplies the domain range, two Dirichlet flags, the
//! bilinear-form integrand, the load integrand and the free boundary
//! contributions. `ComputedFunction::find_solution` builds the basis set,
//! assembles the dense system by integrating every weak-form term over the
//! intersection of supports (skipping intersections shorter than the fixed
//! tolerance `1/10^12`), solves it exactly, and packages the coefficients
//! with the basis set for pointwise evaluation.

use vstd::prelude::*;
use vstd::pervasive::VecAdditionalExecFns;
use crate::rational::Rat;
use crate::rational::rq_wf;
use crate::rational::rq_eq;
use crate::rational::rq_le;
use crate::rational::rq_lt;
use crate::rational::rq_add;
use crate::rational::rq_sub;
use crate::rational::rq_mul;
use crate::rational::rq_min;
use crate::rational::rq_max;
use crate::rational::lemma_rq_ops_wf;
use crate::rational::lemma_add_step;
use crate::rational::lemma_sub_step;
use crate::rational::lemma_mul_step;
use crate::rational::lemma_mul_cong;
use crate::rational::lemma_add_cong;
use crate::rational::lemma_cmp_step;
use crate::rational::lemma_rq_trans;
use crate::rational::lemma_minmax_cong;
use crate::integration::lemma_integral_congruent;
use crate::base_function::BaseFunction;
use crate::integration::Integrand;
use crate::integration::integrate;
use crate::integration::spec_integral;

verus! {

/// The tolerance below which an intersection is treated as empty: `1/10^12`.
pub open spec fn spec_epsilon() -> (int, int) {
    (1int, 1000000000000int)
}

fn epsilon() -> (r: Rat)
    ensures
        r.wf(),
        r@ == spec_epsilon(),
{
    Rat::new(1, 1000000000000)
}

/// A boundary-value problem in weak form. The solver never interprets the
/// physical meaning of the integrands; it only samples them.
pub trait Problem<BFn: BaseFunction>: Sized {
    /// The domain range `[lo, hi)`.
    spec fn spec_range(&self) -> ((int, int), (int, int));

    /// Whether the left boundary value is pinned to zero (Dirichlet).
    spec fn spec_left_zeros(&self) -> bool;

    /// Whether the right boundary value is pinned to zero (Dirichlet).
    spec fn spec_right_zeros(&self) -> bool;

    /// The bilinear-form integrand acting on trial `u` and test `v` at `x`.
    spec fn spec_left_integral(&self, x: (int, int), u: BFn, v: BFn) -> (int, int);

    /// The non-integrated boundary contribution to the matrix.
    spec fn spec_free_left(&self, u: BFn, v: BFn) -> (int, int);

    /// The load integrand acting on test `v` at `x`.
    spec fn spec_right_integral(&self, x: (int, int), v: BFn) -> (int, int);

    /// The non-integrated boundary contribution to the load vector.
    spec fn spec_free_right(&self, v: BFn) -> (int, int);

    /// The bilinear integrand depends only on the rational `x` stands for.
    proof fn left_integral_congruent(&self, x: (int, int), x2: (int, int), u: BFn, v: BFn)
        requires
            u.inv(),
            v.inv(),
            rq_wf(x),
            rq_wf(x2),
            rq_eq(x, x2),
        ensures
            rq_eq(self.spec_left_integral(x, u, v), self.spec_left_integral(x2, u, v)),
            rq_wf(self.spec_left_integral(x, u, v)) <==> rq_wf(self.spec_left_integral(x2, u, v)),
    ;

    /// The load integrand depends only on the rational `x` stands for.
    proof fn right_integral_congruent(&self, x: (int, int), x2: (int, int), v: BFn)
        requires
            v.inv(),
            rq_wf(x),
            rq_wf(x2),
            rq_eq(x, x2),
        ensures
            rq_eq(self.spec_right_integral(x, v), self.spec_right_integral(x2, v)),
            rq_wf(self.spec_right_integral(x, v)) <==> rq_wf(self.spec_right_integral(x2, v)),
    ;

    fn range(&self) -> (r: (Rat, Rat))
        ensures
            r.0.wf(),
            r.1.wf(),
            (r.0@, r.1@) == self.spec_range(),
    ;

    fn left_zeros(&self) -> (r: bool)
        ensures
            r == self.spec_left_zeros(),
    ;

    fn right_zeros(&self) -> (r: bool)
        ensures
            r == self.spec_right_zeros(),
    ;

    fn left_integral(&self, x: &Rat, u: &BFn, v: &BFn) -> (r: Option<Rat>)
        requires
            x.wf(),
            u.inv(),
            v.inv(),
        ensures
            r is Some ==> r->0.wf() && rq_wf(self.spec_left_integral(x@, *u, *v)) && rq_eq(
                r->0@,
                self.spec_left_integral(x@, *u, *v),
            ),
    ;

    fn free_left_terms(&self, u: &BFn, v: &BFn) -> (r: Option<Rat>)
        requires
            u.inv(),
            v.inv(),
        ensures
            r is Some ==> r->0.wf() && rq_wf(self.spec_free_left(*u, *v)) && rq_eq(
                r->0@,
                self.spec_free_left(*u, *v),
            ),
    ;

    fn right_integral(&self, x: &Rat, v: &BFn) -> (r: Option<Rat>)
        requires
            x.wf(),
            v.inv(),
        ensures
            r is Some ==> r->0.wf() && rq_wf(self.spec_right_integral(x@, *v)) && rq_eq(
                r->0@,
                self.spec_right_integral(x@, *v),
            ),
    ;

    fn free_right_terms(&self, v: &BFn) -> (r: Option<Rat>)
        requires
            v.inv(),
        ensures
            r is Some ==> r->0.wf() && rq_wf(self.spec_free_right(*v)) && rq_eq(
                r->0@,
                self.spec_free_right(*v),
            ),
    ;
}

/// The bilinear-form integrand of a problem, fixed to one trial/test pair.
pub struct BilinearIntegrand<'a, P, BFn> {
    pub problem: &'a P,
    pub u: BFn,
    pub v: BFn,
}

impl<'a, BFn: BaseFunction, P: Problem<BFn>> Integrand for BilinearIntegrand<'a, P, BFn> {
    open spec fn inv(&self) -> bool {
        self.u.inv() && self.v.inv()
    }

    open spec fn spec_at(&self, x: (int, int)) -> (int, int) {
        self.problem.spec_left_integral(x, self.u, self.v)
    }

    proof fn congruent(&self, x: (int, int), x2: (int, int)) {
        self.problem.left_integral_congruent(x, x2, self.u, self.v);
    }

    fn at(&self, x: &Rat) -> (r: Option<Rat>) {
        self.problem.left_integral(x, &self.u, &self.v)
    }
}

/// The load integrand of a problem, fixed to one test function.
pub struct LoadIntegrand<'a, P, BFn> {
    pub problem: &'a P,
    pub v: BFn,
}

impl<'a, BFn: BaseFunction, P: Problem<BFn>> Integrand for LoadIntegrand<'a, P, BFn> {
    open spec fn inv(&self) -> bool {
        self.v.inv()
    }

    open spec fn spec_at(&self, x: (int, int)) -> (int, int) {
        self.problem.spec_right_integral(x, self.v)
    }

    proof fn congruent(&self, x: (int, int), x2: (int, int)) {
        self.problem.right_integral_congruent(x, x2, self.v);
    }

    fn at(&self, x: &Rat) -> (r: Option<Rat>) {
        self.problem.right_integral(x, &self.v)
    }
}

/// The views of a sequence of ranges.
pub open spec fn range_views(s: Seq<(Rat, Rat)>) -> Seq<((int, int), (int, int))> {
    s.map_values(|p: (Rat, Rat)| (p.0@, p.1@))
}

/// Folded intersection bounds, before the final clamp.
pub open spec fn spec_inter_raw(ranges: Seq<((int, int), (int, int))>) -> ((int, int), (int, int))
    decreases ranges.len(),
{
    if ranges.len() == 0 {
        ((-0x8000_0000_0000_0000int, 1int), (0x7fff_ffff_ffff_ffffint, 1int))
    } else {
        let p = spec_inter_raw(ranges.drop_last());
        let r = ranges.last();
        (rq_max(p.0, r.0), rq_min(p.1, r.1))
    }
}

/// The intersection of finitely many ranges, clamped so it never runs
/// backwards: the result's upper bound is at least its lower bound.
pub open spec fn spec_intersection(ranges: Seq<((int, int), (int, int))>) -> (
    (int, int),
    (int, int),
) {
    let p = spec_inter_raw(ranges);
    (p.0, rq_max(p.1, p.0))
}

fn intersection(ranges: &Vec<(Rat, Rat)>) -> (r: (Rat, Rat))
    requires
        forall|i: int|
            0 <= i < ranges@.len() ==> (#[trigger] ranges@[i]).0.wf() && ranges@[i].1.wf(),
    ensures
        r.0.wf(),
        r.1.wf(),
        (r.0@, r.1@) == spec_intersection(range_views(ranges@)),
{
    let mut low = Rat::from_int(-0x8000_0000_0000_0000i64);
    let mut high = Rat::from_int(0x7fff_ffff_ffff_ffffi64);
    let mut i: usize = 0;
    while i < ranges.len()
        invariant
            forall|j: int|
                0 <= j < ranges@.len() ==> (#[trigger] ranges@[j]).0.wf() && ranges@[j].1.wf(),
            i <= ranges@.len(),
            low.wf(),
            high.wf(),
            (low@, high@) == spec_inter_raw(range_views(ranges@).take(i as int)),
        decreases ranges@.len() - i,
    {
        let p = ranges[i];
        low = low.max(&p.0);
        high = high.min(&p.1);
        proof {
            assert(range_views(ranges@).take(i + 1).drop_last() =~= range_views(ranges@).take(
                i as int,
            ));
            assert(range_views(ranges@).take(i + 1).last() == (ranges@[i as int].0@, ranges@[
                i as int
            ].1@));
        }
        i = i + 1;
    }
    proof {
        assert(range_views(ranges@).take(ranges@.len() as int) =~= range_views(ranges@));
    }
    let clamped = high.max(&low);
    (low, clamped)
}

} // verus!

verus! {

/// Entry-wise views of a vector of rationals.
pub open spec fn rat_views(s: Seq<Rat>) -> Seq<(int, int)> {
    s.map_values(|q: Rat| q@)
}

/// The `i`-th ranges of the two sequences are well-formed and stand for
/// the same rationals.
pub open spec fn range_pair_ok(
    s: Seq<((int, int), (int, int))>,
    s2: Seq<((int, int), (int, int))>,
    i: int,
) -> bool {
    &&& rq_wf(s[i].0)
    &&& rq_wf(s[i].1)
    &&& rq_wf(s2[i].0)
    &&& rq_wf(s2[i].1)
    &&& rq_eq(s[i].0, s2[i].0)
    &&& rq_eq(s[i].1, s2[i].1)
}

/// Two sequences of ranges whose bounds are pairwise well-formed and stand
/// for the same rationals.
pub open spec fn ranges_equiv(
    s: Seq<((int, int), (int, int))>,
    s2: Seq<((int, int), (int, int))>,
) -> bool {
    &&& s.len() == s2.len()
    &&& forall|i: int| 0 <= i < s.len() ==> #[trigger] range_pair_ok(s, s2, i)
}

/// Intersections respect `rq_eq`, range by range, and keep well-formed bounds.
pub proof fn lemma_intersection_congruent(
    s: Seq<((int, int), (int, int))>,
    s2: Seq<((int, int), (int, int))>,
)
    requires
        ranges_equiv(s, s2),
    ensures
        rq_wf(spec_intersection(s).0),
        rq_wf(spec_intersection(s).1),
        rq_wf(spec_intersection(s2).0),
        rq_wf(spec_intersection(s2).1),
        rq_eq(spec_intersection(s).0, spec_intersection(s2).0),
        rq_eq(spec_intersection(s).1, spec_intersection(s2).1),
{
    lemma_inter_raw_congruent(s, s2);
    lemma_minmax_cong(
        spec_inter_raw(s).1,
        spec_inter_raw(s2).1,
        spec_inter_raw(s).0,
        spec_inter_raw(s2).0,
    );
}

proof fn lemma_inter_raw_congruent(
    s: Seq<((int, int), (int, int))>,
    s2: Seq<((int, int), (int, int))>,
)
    requires
        ranges_equiv(s, s2),
    ensures
        rq_wf(spec_inter_raw(s).0),
        rq_wf(spec_inter_raw(s).1),
        rq_wf(spec_inter_raw(s2).0),
        rq_wf(spec_inter_raw(s2).1),
        rq_eq(spec_inter_raw(s).0, spec_inter_raw(s2).0),
        rq_eq(spec_inter_raw(s).1, spec_inter_raw(s2).1),
    decreases s.len(),
{
    if s.len() == 0 {
    } else {
        assert(ranges_equiv(s.drop_last(), s2.drop_last())) by {
            assert forall|i: int|
                0 <= i < s.drop_last().len() implies #[trigger] range_pair_ok(
                s.drop_last(),
                s2.drop_last(),
                i,
            ) by {
                assert(range_pair_ok(s, s2, i));
                assert(s.drop_last()[i] == s[i]);
                assert(s2.drop_last()[i] == s2[i]);
            }
        }
        lemma_inter_raw_congruent(s.drop_last(), s2.drop_last());
        assert(range_pair_ok(s, s2, s.len() - 1));
        lemma_minmax_cong(
            spec_inter_raw(s.drop_last()).0,
            spec_inter_raw(s2.drop_last()).0,
            s.last().0,
            s2.last().0,
        );
        lemma_minmax_cong(
            spec_inter_raw(s.drop_last()).1,
            spec_inter_raw(s2.drop_last()).1,
            s.last().1,
            s2.last().1,
        );
    }
}

/// An intersection longer than the tolerance is a proper, forward interval.
proof fn lemma_gate(lo: (int, int), hi: (int, int))
    requires
        rq_wf(lo),
        rq_wf(hi),
        rq_lt(spec_epsilon(), rq_sub(hi, lo)),
    ensures
        !rq_le(hi, lo),
        rq_lt(lo, hi),
{
    assert(rq_sub(hi, lo).0 > 0) by (nonlinear_arith)
        requires
            lo.1 >= 1,
            hi.1 >= 1,
            rq_lt(spec_epsilon(), rq_sub(hi, lo)),
    ;
}

/// The exact matrix entry for trial `u` and test `v`: the free boundary
/// term plus the bilinear form integrated over the intersection of the
/// domain with both supports, gated by the tolerance.
pub open spec fn spec_left_entry<BFn: BaseFunction, P: Problem<BFn>>(
    problem: &P,
    u: BFn,
    v: BFn,
) -> (int, int) {
    let civ = spec_intersection(seq![problem.spec_range(), v.support(), u.support()]);
    let gated = if rq_lt(spec_epsilon(), rq_sub(civ.1, civ.0)) {
        spec_integral(BilinearIntegrand { problem, u, v }, civ.0, civ.1)
    } else {
        (0int, 1int)
    };
    rq_add(problem.spec_free_left(u, v), gated)
}

/// The exact load-vector entry for test `v`.
pub open spec fn spec_load_entry<BFn: BaseFunction, P: Problem<BFn>>(problem: &P, v: BFn) -> (
    int,
    int,
) {
    let civ = spec_intersection(seq![problem.spec_range(), v.support()]);
    let gated = if rq_lt(spec_epsilon(), rq_sub(civ.1, civ.0)) {
        spec_integral(LoadIntegrand { problem, v }, civ.0, civ.1)
    } else {
        (0int, 1int)
    };
    rq_add(problem.spec_free_right(v), gated)
}

fn left_entry<BFn: BaseFunction, P: Problem<BFn>>(problem: &P, u: &BFn, v: &BFn) -> (r: Option<
    Rat,
>)
    requires
        u.inv(),
        v.inv(),
    ensures
        r is Some ==> r->0.wf() && rq_eq(r->0@, spec_left_entry(problem, *u, *v)),
{
    let rng = problem.range();
    let vr = match v.non_zero_range() {
        Some(t) => t,
        None => { return None; },
    };
    let ur = match u.non_zero_range() {
        Some(t) => t,
        None => { return None; },
    };
    let mut ranges: Vec<(Rat, Rat)> = Vec::new();
    ranges.push(rng);
    ranges.push(vr);
    ranges.push(ur);
    let iv = intersection(&ranges);
    let ghost cs = seq![problem.spec_range(), v.support(), u.support()];
    let ghost civ = spec_intersection(cs);
    proof {
        assert(range_views(ranges@) =~= seq![
            (rng.0@, rng.1@),
            (vr.0@, vr.1@),
            (ur.0@, ur.1@),
        ]);
        lemma_intersection_congruent(range_views(ranges@), cs);
    }
    let diff = match iv.1.sub(&iv.0) {
        Some(t) => t,
        None => { return None; },
    };
    let eps = epsilon();
    proof {
        lemma_rq_ops_wf(civ.1, civ.0);
        lemma_sub_step(diff@, iv.1@, civ.1, iv.0@, civ.0);
        lemma_cmp_step(spec_epsilon(), spec_epsilon(), diff@, rq_sub(civ.1, civ.0));
        lemma_rq_ops_wf(iv.1@, iv.0@);
        lemma_cmp_step(spec_epsilon(), spec_epsilon(), diff@, rq_sub(iv.1@, iv.0@));
        lemma_sub_step(diff@, iv.1@, iv.1@, iv.0@, iv.0@);
    }
    let gated: Rat;
    if eps.lt(&diff) {
        let g = BilinearIntegrand { problem, u: *u, v: *v };
        let intg = match integrate(&g, &iv.0, &iv.1) {
            Some(t) => t,
            None => { return None; },
        };
        proof {
            lemma_gate(iv.0@, iv.1@);
            lemma_integral_congruent(g, iv.0@, iv.1@, civ.0, civ.1);
            lemma_rq_trans(intg@, spec_integral(g, iv.0@, iv.1@), spec_integral(g, civ.0, civ.1));
        }
        gated = intg;
    } else {
        gated = Rat::zero();
    }
    let free = match problem.free_left_terms(u, v) {
        Some(t) => t,
        None => { return None; },
    };
    let entry = match free.add(&gated) {
        Some(t) => t,
        None => { return None; },
    };
    proof {
        let cgated = if rq_lt(spec_epsilon(), rq_sub(civ.1, civ.0)) {
            spec_integral(BilinearIntegrand { problem, u: *u, v: *v }, civ.0, civ.1)
        } else {
            (0int, 1int)
        };
        lemma_add_step(entry@, free@, problem.spec_free_left(*u, *v), gated@, cgated);
    }
    Some(entry)
}

fn load_entry<BFn: BaseFunction, P: Problem<BFn>>(problem: &P, v: &BFn) -> (r: Option<Rat>)
    requires
        v.inv(),
    ensures
        r is Some ==> r->0.wf() && rq_eq(r->0@, spec_load_entry(problem, *v)),
{
    let rng = problem.range();
    let vr = match v.non_zero_range() {
        Some(t) => t,
        None => { return None; },
    };
    let mut ranges: Vec<(Rat, Rat)> = Vec::new();
    ranges.push(rng);
    ranges.push(vr);
    let iv = intersection(&ranges);
    let ghost cs = seq![problem.spec_range(), v.support()];
    let ghost civ = spec_intersection(cs);
    proof {
        assert(range_views(ranges@) =~= seq![(rng.0@, rng.1@), (vr.0@, vr.1@)]);
        lemma_intersection_congruent(range_views(ranges@), cs);
    }
    let diff = match iv.1.sub(&iv.0) {
        Some(t) => t,
        None => { return None; },
    };
    let eps = epsilon();
    proof {
        lemma_rq_ops_wf(civ.1, civ.0);
        lemma_sub_step(diff@, iv.1@, civ.1, iv.0@, civ.0);
        lemma_cmp_step(spec_epsilon(), spec_epsilon(), diff@, rq_sub(civ.1, civ.0));
        lemma_rq_ops_wf(iv.1@, iv.0@);
        lemma_cmp_step(spec_epsilon(), spec_epsilon(), diff@, rq_sub(iv.1@, iv.0@));
        lemma_sub_step(diff@, iv.1@, iv.1@, iv.0@, iv.0@);
    }
    let gated: Rat;
    if eps.lt(&diff) {
        let g = LoadIntegrand { problem, v: *v };
        let intg = match integrate(&g, &iv.0, &iv.1) {
            Some(t) => t,
            None => { return None; },
        };
        proof {
            lemma_gate(iv.0@, iv.1@);
            lemma_integral_congruent(g, iv.0@, iv.1@, civ.0, civ.1);
            lemma_rq_trans(intg@, spec_integral(g, iv.0@, iv.1@), spec_integral(g, civ.0, civ.1));
        }
        gated = intg;
    } else {
        gated = Rat::zero();
    }
    let free = match problem.free_right_terms(v) {
        Some(t) => t,
        None => { return None; },
    };
    let entry = match free.add(&gated) {
        Some(t) => t,
        None => { return None; },
    };
    proof {
        let cgated = if rq_lt(spec_epsilon(), rq_sub(civ.1, civ.0)) {
            spec_integral(LoadIntegrand { problem, v: *v }, civ.0, civ.1)
        } else {
            (0int, 1int)
        };
        lemma_add_step(entry@, free@, problem.spec_free_right(*v), gated@, cgated);
    }
    Some(entry)
}

} // verus!

verus! {

/// The dot product of the first `k` entries of two rational sequences.
pub open spec fn rq_dot(a: Seq<(int, int)>, x: Seq<(int, int)>, k: int) -> (int, int)
    decreases k,
{
    if k <= 0 {
        (0int, 1int)
    } else {
        rq_add(rq_dot(a, x, k - 1), rq_mul(a[k - 1], x[k - 1]))
    }
}

/// Solve the dense square system `a * x = b` exactly, by Gaussian
/// elimination with exact rational arithmetic. A returned solution is
/// checked against the original system entry by entry, so `Some(x)` means
/// `a * x` equals `b` exactly, row by row. `None` means a zero pivot
/// column (a singular system) or an exact value outside the scalar range.
pub fn solve_system(a: &Vec<Vec<Rat>>, b: &Vec<Rat>) -> (r: Option<Vec<Rat>>)
    requires
        a@.len() == b@.len(),
        forall|i: int| 0 <= i < a@.len() ==> (#[trigger] a@[i])@.len() == a@.len(),
        forall|i: int, j: int|
            0 <= i < a@.len() && 0 <= j < a@.len() ==> (#[trigger] a@[i]@[j]).wf(),
        forall|i: int| 0 <= i < b@.len() ==> (#[trigger] b@[i]).wf(),
    ensures
        r matches Some(x) ==> {
            &&& x@.len() == b@.len()
            &&& forall|i: int| 0 <= i < x@.len() ==> (#[trigger] x@[i]).wf()
            &&& forall|row: int|
                0 <= row < a@.len() ==> rq_eq(
                    #[trigger] rq_dot(rat_views(a@[row]@), rat_views(x@), a@.len() as int),
                    b@[row]@,
                )
        },
        a@.len() == 0 ==> r is Some,
{
    let n = a.len();
    let mut m: Vec<Vec<Rat>> = Vec::new();
    let mut i: usize = 0;
    while i < n
        invariant
            n == a@.len(),
            a@.len() == b@.len(),
            forall|p: int| 0 <= p < a@.len() ==> (#[trigger] a@[p])@.len() == a@.len(),
            forall|p: int, q: int|
                0 <= p < a@.len() && 0 <= q < a@.len() ==> (#[trigger] a@[p]@[q]).wf(),
            i <= n,
            m@.len() == i,
            forall|p: int| 0 <= p < i ==> (#[trigger] m@[p])@.len() == n,
            forall|p: int, q: int| 0 <= p < i && 0 <= q < n ==> (#[trigger] m@[p]@[q]).wf(),
        decreases n - i,
    {
        let mut rowv: Vec<Rat> = Vec::new();
        let mut j: usize = 0;
        while j < n
            invariant
                n == a@.len(),
                forall|p: int| 0 <= p < a@.len() ==> (#[trigger] a@[p])@.len() == a@.len(),
                forall|p: int, q: int|
                    0 <= p < a@.len() && 0 <= q < a@.len() ==> (#[trigger] a@[p]@[q]).wf(),
                i < n,
                j <= n,
                rowv@.len() == j,
                forall|q: int| 0 <= q < j ==> (#[trigger] rowv@[q]).wf(),
            decreases n - j,
        {
            rowv.push(a[i][j]);
            j = j + 1;
        }
        m.push(rowv);
        i = i + 1;
    }
    let mut y: Vec<Rat> = Vec::new();
    let mut i2: usize = 0;
    while i2 < n
        invariant
            n == b@.len(),
            forall|p: int| 0 <= p < b@.len() ==> (#[trigger] b@[p]).wf(),
            i2 <= n,
            y@.len() == i2,
            forall|p: int| 0 <= p < i2 ==> (#[trigger] y@[p]).wf(),
        decreases n - i2,
    {
        y.push(b[i2]);
        i2 = i2 + 1;
    }
    // forward elimination with a first-nonzero pivot
    let mut k: usize = 0;
    while k < n
        invariant
            n == a@.len(),
            m@.len() == n,
            y@.len() == n,
            k <= n,
            forall|p: int| 0 <= p < n ==> (#[trigger] m@[p])@.len() == n,
            forall|p: int, q: int| 0 <= p < n && 0 <= q < n ==> (#[trigger] m@[p]@[q]).wf(),
            forall|p: int| 0 <= p < n ==> (#[trigger] y@[p]).wf(),
        decreases n - k,
    {
        let mut p: usize = k;
        while p < n && m[p][k].numer() == 0
            invariant
                n == a@.len(),
                m@.len() == n,
                k < n,
                k <= p <= n,
                forall|q: int| 0 <= q < n ==> (#[trigger] m@[q])@.len() == n,
                forall|q: int, q2: int|
                    0 <= q < n && 0 <= q2 < n ==> (#[trigger] m@[q]@[q2]).wf(),
            decreases n - p,
        {
            p = p + 1;
        }
        if p == n {
            return None;
        }
        if p != k {
            // swap rows p and k of the working matrix and load vector
            let mut rp: Vec<Rat> = Vec::new();
            let mut j: usize = 0;
            while j < n
                invariant
                    n == a@.len(),
                    m@.len() == n,
                    k < n,
                    p < n,
                    j <= n,
                    rp@.len() == j,
                    forall|q: int| 0 <= q < n ==> (#[trigger] m@[q])@.len() == n,
                    forall|q: int, q2: int|
                        0 <= q < n && 0 <= q2 < n ==> (#[trigger] m@[q]@[q2]).wf(),
                    forall|q: int| 0 <= q < j ==> (#[trigger] rp@[q]).wf(),
                decreases n - j,
            {
                rp.push(m[p][j]);
                j = j + 1;
            }
            let mut rk: Vec<Rat> = Vec::new();
            let mut j2: usize = 0;
            while j2 < n
                invariant
                    n == a@.len(),
                    m@.len() == n,
                    k < n,
                    p < n,
                    j2 <= n,
                    rk@.len() == j2,
                    forall|q: int| 0 <= q < n ==> (#[trigger] m@[q])@.len() == n,
                    forall|q: int, q2: int|
                        0 <= q < n && 0 <= q2 < n ==> (#[trigger] m@[q]@[q2]).wf(),
                    forall|q: int| 0 <= q < j2 ==> (#[trigger] rk@[q]).wf(),
                decreases n - j2,
            {
                rk.push(m[k][j2]);
                j2 = j2 + 1;
            }
            m.set(k, rp);
            m.set(p, rk);
            let yp = y[p];
            let yk = y[k];
            y.set(k, yp);
            y.set(p, yk);
        }
        let pivot = m[k][k];
        let mut i3: usize = k + 1;
        while i3 < n
            invariant
                n == a@.len(),
                m@.len() == n,
                y@.len() == n,
                k < n,
                k < i3 <= n || i3 == k + 1,
                i3 <= n,
                pivot.wf(),
                forall|q: int| 0 <= q < n ==> (#[trigger] m@[q])@.len() == n,
                forall|q: int, q2: int|
                    0 <= q < n && 0 <= q2 < n ==> (#[trigger] m@[q]@[q2]).wf(),
                forall|q: int| 0 <= q < n ==> (#[trigger] y@[q]).wf(),
            decreases n - i3,
        {
            let factor = match m[i3][k].div(&pivot) {
                Some(f) => f,
                None => { return None; },
            };
            let mut newrow: Vec<Rat> = Vec::new();
            let mut j3: usize = 0;
            while j3 < n
                invariant
                    n == a@.len(),
                    m@.len() == n,
                    k < n,
                    i3 < n,
                    j3 <= n,
                    factor.wf(),
                    newrow@.len() == j3,
                    forall|q: int| 0 <= q < n ==> (#[trigger] m@[q])@.len() == n,
                    forall|q: int, q2: int|
                        0 <= q < n && 0 <= q2 < n ==> (#[trigger] m@[q]@[q2]).wf(),
                    forall|q: int| 0 <= q < j3 ==> (#[trigger] newrow@[q]).wf(),
                decreases n - j3,
            {
                let t = match factor.mul(&m[k][j3]) {
                    Some(t) => t,
                    None => { return None; },
                };
                let e = match m[i3][j3].sub(&t) {
                    Some(e) => e,
                    None => { return None; },
                };
                newrow.push(e);
                j3 = j3 + 1;
            }
            m.set(i3, newrow);
            let t = match factor.mul(&y[k]) {
                Some(t) => t,
                None => { return None; },
            };
            let e = match y[i3].sub(&t) {
                Some(e) => e,
                None => { return None; },
            };
            y.set(i3, e);
            i3 = i3 + 1;
        }
        k = k + 1;
    }
    // back substitution
    let mut x: Vec<Rat> = Vec::new();
    let mut i4: usize = 0;
    while i4 < n
        invariant
            i4 <= n,
            x@.len() == i4,
            forall|p: int| 0 <= p < i4 ==> (#[trigger] x@[p]).wf(),
        decreases n - i4,
    {
        x.push(Rat::zero());
        i4 = i4 + 1;
    }
    let mut k2: usize = n;
    while k2 > 0
        invariant
            n == a@.len(),
            k2 >= 1 ==> n >= 1,
            m@.len() == n,
            y@.len() == n,
            x@.len() == n,
            k2 <= n,
            forall|p: int| 0 <= p < n ==> (#[trigger] m@[p])@.len() == n,
            forall|p: int, q: int| 0 <= p < n && 0 <= q < n ==> (#[trigger] m@[p]@[q]).wf(),
            forall|p: int| 0 <= p < n ==> (#[trigger] y@[p]).wf(),
            forall|p: int| 0 <= p < n ==> (#[trigger] x@[p]).wf(),
        decreases k2,
    {
        let kk = k2 - 1;
        let mut s = y[kk];
        let mut j4: usize = kk + 1;
        while j4 < n
            invariant
                n == a@.len(),
                m@.len() == n,
                x@.len() == n,
                kk < n,
                kk < j4 <= n || j4 == kk + 1,
                j4 <= n,
                s.wf(),
                forall|p: int| 0 <= p < n ==> (#[trigger] m@[p])@.len() == n,
                forall|p: int, q: int|
                    0 <= p < n && 0 <= q < n ==> (#[trigger] m@[p]@[q]).wf(),
                forall|p: int| 0 <= p < n ==> (#[trigger] x@[p]).wf(),
            decreases n - j4,
        {
            let t = match m[kk][j4].mul(&x[j4]) {
                Some(t) => t,
                None => { return None; },
            };
            s = match s.sub(&t) {
                Some(e) => e,
                None => { return None; },
            };
            j4 = j4 + 1;
        }
        let pk = m[kk][kk];
        let xk = match s.div(&pk) {
            Some(t) => t,
            None => { return None; },
        };
        x.set(kk, xk);
        k2 = k2 - 1;
    }
    // check the candidate against the original system; only a checked
    // solution is returned
    let mut row: usize = 0;
    while row < n
        invariant
            n == a@.len(),
            a@.len() == b@.len(),
            x@.len() == n,
            row <= n,
            forall|p: int| 0 <= p < a@.len() ==> (#[trigger] a@[p])@.len() == a@.len(),
            forall|p: int, q: int|
                0 <= p < a@.len() && 0 <= q < a@.len() ==> (#[trigger] a@[p]@[q]).wf(),
            forall|p: int| 0 <= p < b@.len() ==> (#[trigger] b@[p]).wf(),
            forall|p: int| 0 <= p < n ==> (#[trigger] x@[p]).wf(),
            forall|p: int|
                0 <= p < row ==> rq_eq(
                    #[trigger] rq_dot(rat_views(a@[p]@), rat_views(x@), n as int),
                    b@[p]@,
                ),
        decreases n - row,
    {
        let mut acc = Rat::zero();
        let mut c: usize = 0;
        while c < n
            invariant
                n == a@.len(),
                x@.len() == n,
                row < n,
                c <= n,
                acc.wf(),
                forall|p: int| 0 <= p < a@.len() ==> (#[trigger] a@[p])@.len() == a@.len(),
                forall|p: int, q: int|
                    0 <= p < a@.len() && 0 <= q < a@.len() ==> (#[trigger] a@[p]@[q]).wf(),
                forall|p: int| 0 <= p < n ==> (#[trigger] x@[p]).wf(),
                rq_eq(acc@, rq_dot(rat_views(a@[row as int]@), rat_views(x@), c as int)),
            decreases n - c,
        {
            let t = match a[row][c].mul(&x[c]) {
                Some(t) => t,
                None => { return None; },
            };
            let next = match acc.add(&t) {
                Some(t) => t,
                None => { return None; },
            };
            proof {
                let av = rat_views(a@[row as int]@);
                let xv = rat_views(x@);
                assert(av[c as int] == a@[row as int]@[c as int]@);
                assert(xv[c as int] == x@[c as int]@);
                lemma_mul_step(t@, a@[row as int]@[c as int]@, av[c as int], x@[c as int]@, xv[c as int]);
                lemma_add_step(next@, acc@, rq_dot(av, xv, c as int), t@, rq_mul(av[c as int], xv[c as int]));
            }
            acc = next;
            c = c + 1;
        }
        if !acc.equal(&b[row]) {
            return None;
        }
        proof {
            lemma_rq_trans(
                rq_dot(rat_views(a@[row as int]@), rat_views(x@), n as int),
                acc@,
                b@[row as int]@,
            );
        }
        row = row + 1;
    }
    Some(x)
}

} // verus!

verus! {

/// How many basis functions a mesh of `n` elements yields: the `n - 1`
/// interior nodes, plus one per boundary that is not pinned to zero.
pub open spec fn spec_basis_count(lz: bool, rz: bool, n: int) -> int {
    (n - 1) + (if lz { 0int } else { 1int }) + (if rz { 0int } else { 1int })
}

/// The node index of the `k`-th basis function in the assembled order.
pub open spec fn spec_basis_index(lz: bool, k: int) -> int {
    if lz {
        k + 1
    } else {
        k
    }
}

/// The basis sequence a problem and mesh resolution determine: count per
/// the boundary flags, all on the problem's range, indices in order.
pub open spec fn bases_shape<BFn: BaseFunction, P: Problem<BFn>>(
    problem: &P,
    n: int,
    bs: Seq<BFn>,
) -> bool {
    &&& bs.len() == spec_basis_count(problem.spec_left_zeros(), problem.spec_right_zeros(), n)
    &&& forall|k: int|
        0 <= k < bs.len() ==> {
            let b = #[trigger] bs[k];
            &&& b.inv()
            &&& b.scount() == n
            &&& b.srange() == problem.spec_range()
            &&& b.sindex() == spec_basis_index(problem.spec_left_zeros(), k)
        }
}

/// The dot product of one row of exact matrix entries with the coefficients.
pub open spec fn spec_row_dot<BFn: BaseFunction, P: Problem<BFn>>(
    problem: &P,
    bs: Seq<BFn>,
    row: int,
    xs: Seq<(int, int)>,
    k: int,
) -> (int, int)
    decreases k,
{
    if k <= 0 {
        (0int, 1int)
    } else {
        rq_add(
            spec_row_dot(problem, bs, row, xs, k - 1),
            rq_mul(spec_left_entry(problem, bs[k - 1], bs[row]), xs[k - 1]),
        )
    }
}

proof fn lemma_dot_entries<BFn: BaseFunction, P: Problem<BFn>>(
    problem: &P,
    bs: Seq<BFn>,
    row: int,
    arow: Seq<(int, int)>,
    xs: Seq<(int, int)>,
    k: int,
)
    requires
        k <= arow.len(),
        k <= xs.len(),
        k <= bs.len(),
        forall|c: int|
            0 <= c < k ==> rq_wf(#[trigger] arow[c]) && rq_eq(
                arow[c],
                spec_left_entry(problem, bs[c], bs[row]),
            ),
        forall|c: int| 0 <= c < k ==> rq_wf(#[trigger] xs[c]),
    ensures
        rq_wf(rq_dot(arow, xs, k)),
        rq_eq(rq_dot(arow, xs, k), spec_row_dot(problem, bs, row, xs, k)),
    decreases k,
{
    if k <= 0 {
    } else {
        lemma_dot_entries(problem, bs, row, arow, xs, k - 1);
        lemma_mul_cong(
            arow[k - 1],
            spec_left_entry(problem, bs[k - 1], bs[row]),
            xs[k - 1],
            xs[k - 1],
        );
        lemma_add_cong(
            rq_dot(arow, xs, k - 1),
            spec_row_dot(problem, bs, row, xs, k - 1),
            rq_mul(arow[k - 1], xs[k - 1]),
            rq_mul(spec_left_entry(problem, bs[k - 1], bs[row]), xs[k - 1]),
        );
        lemma_rq_ops_wf(arow[k - 1], xs[k - 1]);
        lemma_rq_ops_wf(rq_dot(arow, xs, k - 1), rq_mul(arow[k - 1], xs[k - 1]));
    }
}

/// The exact pointwise value of the computed approximation: the weighted
/// sum of the first `k` basis values at `x`.
pub open spec fn spec_evalute<BFn: BaseFunction>(
    bs: Seq<BFn>,
    xs: Seq<(int, int)>,
    x: (int, int),
    k: int,
) -> (int, int)
    decreases k,
{
    if k <= 0 {
        (0int, 1int)
    } else {
        rq_add(spec_evalute(bs, xs, x, k - 1), rq_mul(bs[k - 1].value_at(x), xs[k - 1]))
    }
}

/// A computed approximate solution: a basis set and one coefficient per
/// basis function, in matching order.
pub struct ComputedFunction<BFn: BaseFunction> {
    bases: Vec<BFn>,
    scalars: Vec<Rat>,
}

impl<BFn: BaseFunction> ComputedFunction<BFn> {
    /// The basis functions, in assembled order.
    pub closed spec fn sbases(&self) -> Seq<BFn> {
        self.bases@
    }

    /// The coefficients, as rational pairs, in the same order.
    pub closed spec fn sscalars(&self) -> Seq<(int, int)> {
        rat_views(self.scalars@)
    }

    /// One coefficient per basis function, everything well-formed.
    pub open spec fn wf(&self) -> bool {
        &&& self.sbases().len() == self.sscalars().len()
        &&& forall|i: int| 0 <= i < self.sbases().len() ==> (#[trigger] self.sbases()[i]).inv()
        &&& forall|i: int| 0 <= i < self.sscalars().len() ==> rq_wf(#[trigger] self.sscalars()[i])
    }

    /// Build the basis set a problem and mesh resolution determine: the
    /// interior nodes `1 .. n-1`, plus node `0` if the left boundary is
    /// free and node `n` if the right boundary is free.
    pub fn get_bases<P: Problem<BFn>>(problem: &P, n: usize) -> (r: Vec<BFn>)
        requires
            1 <= n <= 0x7fff_ffff_ffff_ffff,
        ensures
            bases_shape(problem, n as int, r@),
    {
        let rng = problem.range();
        let lz = problem.left_zeros();
        let rz = problem.right_zeros();
        let mut bases: Vec<BFn> = Vec::new();
        if !lz {
            bases.push(BFn::new(0, n, rng.0, rng.1));
        }
        let ghost off: int = if lz { 0int } else { 1int };
        let mut i: usize = 1;
        while i < n
            invariant
                1 <= n <= 0x7fff_ffff_ffff_ffff,
                rng.0.wf(),
                rng.1.wf(),
                (rng.0@, rng.1@) == problem.spec_range(),
                lz == problem.spec_left_zeros(),
                off == (if lz { 0int } else { 1int }),
                1 <= i <= n,
                bases@.len() == off + i - 1,
                forall|k: int|
                    0 <= k < bases@.len() ==> {
                        let b = #[trigger] bases@[k];
                        &&& b.inv()
                        &&& b.scount() == n as int
                        &&& b.srange() == problem.spec_range()
                        &&& b.sindex() == spec_basis_index(lz, k)
                    },
            decreases n - i,
        {
            bases.push(BFn::new(i, n, rng.0, rng.1));
            i = i + 1;
        }
        if !rz {
            bases.push(BFn::new(n, n, rng.0, rng.1));
        }
        bases
    }

    /// Assemble and solve the weak-form system for `problem` on a mesh of
    /// `n` elements. `Some` holds a well-formed `ComputedFunction` whose
    /// basis set is the one `get_bases` describes and whose coefficients
    /// satisfy, exactly and row by row, the linear system whose entries
    /// are the exact gated weak-form integrals. `None` reports a singular
    /// system or an exact value outside the scalar range.
    pub fn find_solution<P: Problem<BFn>>(problem: &P, n: usize) -> (r: Option<
        ComputedFunction<BFn>,
    >)
        requires
            1 <= n <= 0x7fff_ffff_ffff_ffff,
        ensures
            r matches Some(cf) ==> {
                &&& cf.wf()
                &&& bases_shape(problem, n as int, cf.sbases())
                &&& forall|row: int|
                    0 <= row < cf.sbases().len() ==> rq_eq(
                        #[trigger] spec_row_dot(
                            problem,
                            cf.sbases(),
                            row,
                            cf.sscalars(),
                            cf.sbases().len() as int,
                        ),
                        spec_load_entry(problem, cf.sbases()[row]),
                    )
            },
            spec_basis_count(problem.spec_left_zeros(), problem.spec_right_zeros(), n as int) == 0
                ==> r is Some,
    {
        let bases = Self::get_bases(problem, n);
        let dim = bases.len();
        let mut left: Vec<Vec<Rat>> = Vec::new();
        let mut right: Vec<Rat> = Vec::new();
        let mut row: usize = 0;
        while row < dim
            invariant
                bases_shape(problem, n as int, bases@),
                dim == bases@.len(),
                row <= dim,
                left@.len() == row,
                right@.len() == row,
                forall|i: int| 0 <= i < row ==> (#[trigger] left@[i])@.len() == dim,
                forall|i: int, j: int|
                    0 <= i < row && 0 <= j < dim ==> (#[trigger] left@[i]@[j]).wf() && rq_eq(
                        left@[i]@[j]@,
                        spec_left_entry(problem, bases@[j], bases@[i]),
                    ),
                forall|i: int|
                    0 <= i < row ==> (#[trigger] right@[i]).wf() && rq_eq(
                        right@[i]@,
                        spec_load_entry(problem, bases@[i]),
                    ),
            decreases dim - row,
        {
            let v = bases[row];
            let re = match load_entry(problem, &v) {
                Some(t) => t,
                None => { return None; },
            };
            right.push(re);
            let mut rowv: Vec<Rat> = Vec::new();
            let mut col: usize = 0;
            while col < dim
                invariant
                    bases_shape(problem, n as int, bases@),
                    dim == bases@.len(),
                    row < dim,
                    col <= dim,
                    v == bases@[row as int],
                    rowv@.len() == col,
                    forall|j: int|
                        0 <= j < col ==> (#[trigger] rowv@[j]).wf() && rq_eq(
                            rowv@[j]@,
                            spec_left_entry(problem, bases@[j], bases@[row as int]),
                        ),
                decreases dim - col,
            {
                let u = bases[col];
                let e = match left_entry(problem, &u, &v) {
                    Some(t) => t,
                    None => { return None; },
                };
                rowv.push(e);
                col = col + 1;
            }
            left.push(rowv);
            row = row + 1;
        }
        let scalars = match solve_system(&left, &right) {
            Some(s) => s,
            None => { return None; },
        };
        proof {
            assert forall|r0: int| 0 <= r0 < dim implies rq_eq(
                #[trigger] spec_row_dot(problem, bases@, r0, rat_views(scalars@), dim as int),
                spec_load_entry(problem, bases@[r0]),
            ) by {
                let av = rat_views(left@[r0]@);
                let xv = rat_views(scalars@);
                assert forall|c: int| 0 <= c < dim implies rq_wf(#[trigger] av[c]) && rq_eq(
                    av[c],
                    spec_left_entry(problem, bases@[c], bases@[r0]),
                ) by {
                    assert(av[c] == left@[r0]@[c]@);
                }
                assert forall|c: int| 0 <= c < dim implies rq_wf(#[trigger] xv[c]) by {
                    assert(xv[c] == scalars@[c]@);
                }
                lemma_dot_entries(problem, bases@, r0, av, xv, dim as int);
                lemma_rq_trans(
                    spec_row_dot(problem, bases@, r0, xv, dim as int),
                    rq_dot(av, xv, dim as int),
                    right@[r0]@,
                );
                lemma_rq_trans(
                    spec_row_dot(problem, bases@, r0, xv, dim as int),
                    right@[r0]@,
                    spec_load_entry(problem, bases@[r0]),
                );
            }
        }
        Some(ComputedFunction { bases, scalars })
    }

    /// Evaluate the approximation at `x`: the sum of each basis value at
    /// `x` weighted by its coefficient, exactly.
    pub fn evalute(&self, x: &Rat) -> (r: Option<Rat>)
        requires
            self.wf(),
            x.wf(),
        ensures
            r is Some ==> r->0.wf() && rq_eq(
                r->0@,
                spec_evalute(self.sbases(), self.sscalars(), x@, self.sbases().len() as int),
            ),
            self.sbases().len() == 0 ==> r is Some,
    {
        let mut acc = Rat::zero();
        let mut i: usize = 0;
        while i < self.bases.len()
            invariant
                self.wf(),
                x.wf(),
                acc.wf(),
                i <= self.bases@.len(),
                rq_eq(acc@, spec_evalute(self.sbases(), self.sscalars(), x@, i as int)),
            decreases self.bases@.len() - i,
        {
            let val = match self.bases[i].regular(x) {
                Some(t) => t,
                None => { return None; },
            };
            proof {
                assert(rq_wf(self.sscalars()[i as int]));
                assert(self.sscalars()[i as int] == self.scalars@[i as int]@);
            }
            let prod = match val.mul(&self.scalars[i]) {
                Some(t) => t,
                None => { return None; },
            };
            let next = match acc.add(&prod) {
                Some(t) => t,
                None => { return None; },
            };
            proof {
                let ii = i as int;
                assert(self.sscalars()[ii] == self.scalars@[ii]@);
                lemma_mul_step(
                    prod@,
                    val@,
                    self.sbases()[ii].value_at(x@),
                    self.scalars@[ii]@,
                    self.sscalars()[ii],
                );
                lemma_add_step(
                    next@,
                    acc@,
                    spec_evalute(self.sbases(), self.sscalars(), x@, ii),
                    prod@,
                    rq_mul(self.sbases()[ii].value_at(x@), self.sscalars()[ii]),
                );
            }
            acc = next;
            i = i + 1;
        }
        Some(acc)
    }
}

} // verus!

verus! {

/// The fixed "material vibration" problem: domain `[0, 2)`, the left
/// boundary pinned to zero and the right boundary free, bilinear form
/// `u'v' - uv` with the free term `-u(2)v(2)`, and load `sin(x) * v(x)`.
/// The sine in the load has no exact rational form, so the full weak-form
/// definition lives with the floating-point front end; this type carries
/// the exact domain and boundary flags that the core can state.
pub struct MaterialVibration;

impl MaterialVibration {
    /// The domain `[0, 2)`.
    pub fn range(&self) -> (r: (Rat, Rat))
        ensures
            r.0.wf(),
            r.1.wf(),
            r.0@ == (0int, 1int),
            r.1@ == (2int, 1int),
    {
        (Rat::zero(), Rat::from_int(2))
    }

    /// The left boundary is pinned to zero.
    pub fn left_zeros(&self) -> (r: bool)
        ensures
            r == true,
    {
        true
    }

    /// The right boundary is free.
    pub fn right_zeros(&self) -> (r: bool)
        ensures
            r == false,
    {
        false
    }
}

/// A fully rational model problem: `-u'' = 0` with the left boundary
/// pinned to zero and a unit flux at the free right boundary. Its weak
/// form is `∫ u'v' = v(hi)`; on a domain starting at zero the exact
/// solution is the ramp `u(x) = x`, which the hat basis reproduces
/// exactly, so the whole pipeline can be exercised end to end in exact
/// arithmetic.
pub struct UnitFluxProblem {
    lo: Rat,
    hi: Rat,
}

impl UnitFluxProblem {
    #[verifier::type_invariant]
    pub closed spec fn inv(&self) -> bool {
        self.lo.wf() && self.hi.wf()
    }

    pub fn new(lo: Rat, hi: Rat) -> (r: UnitFluxProblem)
        requires
            lo.wf(),
            hi.wf(),
        ensures
            r.inv(),
            r.spec_range_pair() == (lo@, hi@),
    {
        UnitFluxProblem { lo, hi }
    }

    pub closed spec fn spec_range_pair(&self) -> ((int, int), (int, int)) {
        (self.lo@, self.hi@)
    }
}

impl<BFn: BaseFunction> Problem<BFn> for UnitFluxProblem {
    closed spec fn spec_range(&self) -> ((int, int), (int, int)) {
        (self.lo@, self.hi@)
    }

    closed spec fn spec_left_zeros(&self) -> bool {
        true
    }

    closed spec fn spec_right_zeros(&self) -> bool {
        false
    }

    closed spec fn spec_left_integral(&self, x: (int, int), u: BFn, v: BFn) -> (int, int) {
        rq_mul(u.slope_at(x), v.slope_at(x))
    }

    closed spec fn spec_free_left(&self, u: BFn, v: BFn) -> (int, int) {
        (0int, 1int)
    }

    closed spec fn spec_right_integral(&self, x: (int, int), v: BFn) -> (int, int) {
        (0int, 1int)
    }

    closed spec fn spec_free_right(&self, v: BFn) -> (int, int) {
        v.value_at(self.hi@)
    }

    proof fn left_integral_congruent(&self, x: (int, int), x2: (int, int), u: BFn, v: BFn) {
        u.slope_congruent(x, x2);
        v.slope_congruent(x, x2);
        lemma_mul_cong(u.slope_at(x), u.slope_at(x2), v.slope_at(x), v.slope_at(x2));
        let a = u.slope_at(x);
        let a2 = u.slope_at(x2);
        let b = v.slope_at(x);
        let b2 = v.slope_at(x2);
        assert(rq_wf(rq_mul(a, b)) <==> rq_wf(rq_mul(a2, b2))) by (nonlinear_arith)
            requires
                a.1 >= 0,
                b.1 >= 0,
                a2.1 >= 0,
                b2.1 >= 0,
                (a.1 >= 1 <==> a2.1 >= 1),
                (b.1 >= 1 <==> b2.1 >= 1),
        ;
    }

    proof fn right_integral_congruent(&self, x: (int, int), x2: (int, int), v: BFn) {
    }

    fn range(&self) -> (r: (Rat, Rat)) {
        proof {
            use_type_invariant(self);
        }
        (self.lo, self.hi)
    }

    fn left_zeros(&self) -> (r: bool) {
        true
    }

    fn right_zeros(&self) -> (r: bool) {
        false
    }

    fn left_integral(&self, x: &Rat, u: &BFn, v: &BFn) -> (r: Option<Rat>) {
        let du = match u.derivative(x) {
            Some(t) => t,
            None => { return None; },
        };
        let dv = match v.derivative(x) {
            Some(t) => t,
            None => { return None; },
        };
        let prod = match du.mul(&dv) {
            Some(t) => t,
            None => { return None; },
        };
        proof {
            lemma_mul_step(prod@, du@, u.slope_at(x@), dv@, v.slope_at(x@));
            lemma_rq_ops_wf(u.slope_at(x@), v.slope_at(x@));
        }
        Some(prod)
    }

    fn free_left_terms(&self, u: &BFn, v: &BFn) -> (r: Option<Rat>) {
        Some(Rat::zero())
    }

    fn right_integral(&self, x: &Rat, v: &BFn) -> (r: Option<Rat>) {
        Some(Rat::zero())
    }

    fn free_right_terms(&self, v: &BFn) -> (r: Option<Rat>) {
        proof {
            use_type_invariant(self);
        }
        v.regular(&self.hi)
    }
}

} // verus!
