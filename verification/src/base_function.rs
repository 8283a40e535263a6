//! The hat ("tent") basis-function family over a uniform partition.
//!
//! A basis function is identified by a node index `i` in `[0, n]`, the
//! element count `n`, and the domain range. With element size
//! `h = (hi - lo) / n` the function rises linearly from `0` at `i*h - h`
//! to `1` at `i*h` and falls back to `0` at `i*h + h`; it is zero outside
//! that support. The exact node `x = i*h` resolves to the rising half,
//! because the rising-half condition is checked first.

use vstd::prelude::*;
use crate::rational::Rat;
use crate::rational::rq_wf;
use crate::rational::rq_eq;
use crate::rational::rq_le;
use crate::rational::rq_lt;
use crate::rational::rq_add;
use crate::rational::rq_sub;
use crate::rational::rq_mul;
use crate::rational::rq_div;
use crate::rational::lemma_rq_ops_wf;
use crate::rational::lemma_add_step;
use crate::rational::lemma_sub_step;
use crate::rational::lemma_mul_step;
use crate::rational::lemma_div_step;
use crate::rational::lemma_cmp_step;
use crate::rational::lemma_sub_cong;
use crate::rational::lemma_div_cong;
use crate::rational::lemma_div_den_nonneg;
use crate::rational::lemma_rq_lt_le_trans;
use crate::rational::lemma_rq_le_lt_trans;
use crate::rational::lemma_add_cong;
use crate::rational::lemma_rq_trans;
use crate::rational::lemma_div_add_same;
use crate::rational::lemma_telescope;
use crate::rational::abs_i;
use crate::rational::rq_fits;
use crate::rational::bnd;
use crate::rational::lemma_bnd_add;
use crate::rational::lemma_bnd_mul;
use crate::rational::lemma_bnd_div;
use crate::rational::lemma_rq_le_trans;
use vstd::arithmetic::div_mod::lemma_fundamental_div_mod;

verus! {

/// A basis-function family: values, slopes, and the support outside of
/// which the function vanishes. Results are exact rationals; `None` means
/// the exact value did not fit the scalar type.
pub trait BaseFunction: Sized + Copy {
    /// Validity of the construction data.
    spec fn inv(&self) -> bool;

    /// The node index this function is centred on.
    spec fn sindex(&self) -> int;

    /// The element count of the partition.
    spec fn scount(&self) -> int;

    /// The domain range the partition covers.
    spec fn srange(&self) -> ((int, int), (int, int));

    /// The function's value at `x`, as an exact rational pair.
    spec fn value_at(&self, x: (int, int)) -> (int, int);

    /// The function's slope at `x`, as an exact rational pair.
    spec fn slope_at(&self, x: (int, int)) -> (int, int);

    /// The support `[low, high)` outside of which the value is zero.
    spec fn support(&self) -> ((int, int), (int, int));

    /// Inputs on which `regular` is guaranteed to succeed.
    spec fn value_ok(&self, x: (int, int)) -> bool;

    /// When `derivative` is guaranteed to succeed.
    spec fn slope_ok(&self) -> bool;

    /// When `non_zero_range` is guaranteed to succeed.
    spec fn support_ok(&self) -> bool;

    /// The value depends only on the rational `x` stands for, not on the
    /// pair representing it.
    proof fn value_congruent(&self, x: (int, int), x2: (int, int))
        requires
            self.inv(),
            rq_wf(x),
            rq_wf(x2),
            rq_eq(x, x2),
        ensures
            rq_eq(self.value_at(x), self.value_at(x2)),
            rq_wf(self.value_at(x)) <==> rq_wf(self.value_at(x2)),
            self.value_at(x).1 >= 0,
            self.value_at(x2).1 >= 0,
    ;

    /// The slope depends only on the rational `x` stands for.
    proof fn slope_congruent(&self, x: (int, int), x2: (int, int))
        requires
            self.inv(),
            rq_wf(x),
            rq_wf(x2),
            rq_eq(x, x2),
        ensures
            rq_eq(self.slope_at(x), self.slope_at(x2)),
            rq_wf(self.slope_at(x)) <==> rq_wf(self.slope_at(x2)),
            self.slope_at(x).1 >= 0,
            self.slope_at(x2).1 >= 0,
    ;

    fn new(index: usize, elements_count: usize, range_lo: Rat, range_hi: Rat) -> (r: Self)
        requires
            1 <= elements_count <= 0x7fff_ffff_ffff_ffff,
            index <= elements_count,
            range_lo.wf(),
            range_hi.wf(),
        ensures
            r.inv(),
            r.sindex() == index as int,
            r.scount() == elements_count as int,
            r.srange() == (range_lo@, range_hi@),
    ;

    fn regular(&self, x: &Rat) -> (r: Option<Rat>)
        requires
            self.inv(),
            x.wf(),
        ensures
            r is Some ==> r->0.wf() && rq_wf(self.value_at(x@)) && rq_eq(r->0@, self.value_at(x@)),
            self.value_ok(x@) ==> r is Some,
    ;

    fn derivative(&self, x: &Rat) -> (r: Option<Rat>)
        requires
            self.inv(),
            x.wf(),
        ensures
            r is Some ==> r->0.wf() && rq_wf(self.slope_at(x@)) && rq_eq(r->0@, self.slope_at(x@)),
            self.slope_ok() ==> r is Some,
    ;

    fn non_zero_range(&self) -> (r: Option<(Rat, Rat)>)
        requires
            self.inv(),
        ensures
            r matches Some(t) ==> {
                &&& t.0.wf()
                &&& t.1.wf()
                &&& rq_wf(self.support().0)
                &&& rq_wf(self.support().1)
                &&& rq_eq(t.0@, self.support().0)
                &&& rq_eq(t.1@, self.support().1)
            },
            self.support_ok() ==> r is Some,
    ;
}

/// The concrete hat function on a uniform partition. The fields are the
/// construction data and are never mutated; they are public so that the
/// geometry spec functions below can stay transparent to callers.
#[derive(Clone, Copy)]
pub struct SimpleBaseFunction {
    pub index: usize,
    pub elements_count: usize,
    pub range_lo: Rat,
    pub range_hi: Rat,
}

impl SimpleBaseFunction {
    /// `h = (hi - lo) / n`, as a canonical pair.
    pub open spec fn spec_elem_size(&self) -> (int, int) {
        rq_div(rq_sub(self.range_hi@, self.range_lo@), (self.elements_count as int, 1int))
    }

    /// `(low, mid, high) = (i*h - h, i*h, i*h + h)`, as canonical pairs.
    pub open spec fn spec_points(&self) -> ((int, int), (int, int), (int, int)) {
        let h = self.spec_elem_size();
        let m = rq_mul((self.index as int, 1int), h);
        (rq_sub(m, h), m, rq_add(m, h))
    }

    /// Magnitude bound of the domain's lower endpoint.
    pub open spec fn b_lo(&self) -> (int, int) {
        (abs_i(self.range_lo@.0), self.range_lo@.1)
    }

    /// Magnitude bound of the domain's upper endpoint.
    pub open spec fn b_hi(&self) -> (int, int) {
        (abs_i(self.range_hi@.0), self.range_hi@.1)
    }

    /// Bound of `hi - lo`.
    pub open spec fn b_diff(&self) -> (int, int) {
        rq_add(self.b_hi(), self.b_lo())
    }

    /// Bound of the element size `h`.
    pub open spec fn b_elem(&self) -> (int, int) {
        rq_div(self.b_diff(), (self.elements_count as int, 1int))
    }

    /// Bound of the node position `i*h`.
    pub open spec fn b_mid(&self) -> (int, int) {
        rq_mul((self.index as int, 1int), self.b_elem())
    }

    /// Bound of both support ends `i*h - h` and `i*h + h`.
    pub open spec fn b_edge(&self) -> (int, int) {
        rq_add(self.b_mid(), self.b_elem())
    }

    /// The element-size computation stays within the scalar range.
    pub open spec fn elem_size_ok(&self) -> bool {
        rq_fits(self.b_diff()) && rq_fits(self.b_elem())
    }

    /// All three node points stay within the scalar range.
    pub open spec fn points_ok(&self) -> bool {
        self.elem_size_ok() && rq_fits(self.b_mid()) && rq_fits(self.b_edge())
    }

    fn get_elem_size(&self) -> (r: Option<Rat>)
        requires
            self.inv(),
        ensures
            r is Some ==> r->0.wf() && rq_eq(r->0@, self.spec_elem_size()),
            r is Some ==> bnd(r->0@, self.b_elem()),
            self.elem_size_ok() ==> r is Some,
    {
        proof {
            lemma_bnd_add(self.range_hi@, self.range_lo@, self.b_hi(), self.b_lo());
        }
        let diff = match self.range_hi.sub(&self.range_lo) {
            Some(d) => d,
            None => { return None; },
        };
        let nr = Rat::from_int(self.elements_count as i64);
        proof {
            lemma_bnd_div(diff@, nr@, self.b_diff(), (self.elements_count as int, 1int));
        }
        let h = match diff.div(&nr) {
            Some(h) => h,
            None => { return None; },
        };
        proof {
            lemma_rq_ops_wf(self.range_hi@, self.range_lo@);
            lemma_div_step(
                h@,
                diff@,
                rq_sub(self.range_hi@, self.range_lo@),
                nr@,
                (self.elements_count as int, 1int),
            );
        }
        Some(h)
    }

    fn get_points(&self) -> (r: Option<(Rat, Rat, Rat)>)
        requires
            self.inv(),
        ensures
            r matches Some(t) ==> {
                &&& t.0.wf() && t.1.wf() && t.2.wf()
                &&& rq_eq(t.0@, self.spec_points().0)
                &&& rq_eq(t.1@, self.spec_points().1)
                &&& rq_eq(t.2@, self.spec_points().2)
                &&& bnd(t.0@, self.b_edge())
                &&& bnd(t.1@, self.b_mid())
                &&& bnd(t.2@, self.b_edge())
            },
            self.points_ok() ==> r is Some,
    {
        proof {
            lemma_canon_wf(*self);
        }
        let h = match self.get_elem_size() {
            Some(h) => h,
            None => { return None; },
        };
        let idx = Rat::from_int(self.index as i64);
        proof {
            lemma_bnd_mul(idx@, h@, (self.index as int, 1int), self.b_elem());
        }
        let mid = match idx.mul(&h) {
            Some(m) => m,
            None => { return None; },
        };
        proof {
            lemma_bnd_add(mid@, h@, self.b_mid(), self.b_elem());
        }
        let low = match mid.sub(&h) {
            Some(l) => l,
            None => { return None; },
        };
        let high = match mid.add(&h) {
            Some(u) => u,
            None => { return None; },
        };
        proof {
            let hc = self.spec_elem_size();
            let mc = rq_mul((self.index as int, 1int), hc);
            lemma_mul_step(mid@, idx@, (self.index as int, 1int), h@, hc);
            lemma_sub_step(low@, mid@, mc, h@, hc);
            lemma_add_step(high@, mid@, mc, h@, hc);
        }
        Some((low, mid, high))
    }
}

/// The canonical element size and node points of a valid hat function are
/// well-formed rational pairs.
pub proof fn lemma_canon_wf(f: SimpleBaseFunction)
    requires
        f.inv(),
    ensures
        rq_wf(f.spec_elem_size()),
        rq_wf(f.spec_points().0),
        rq_wf(f.spec_points().1),
        rq_wf(f.spec_points().2),
{
    lemma_rq_ops_wf(f.range_hi@, f.range_lo@);
    lemma_rq_ops_wf(rq_sub(f.range_hi@, f.range_lo@), (f.elements_count as int, 1int));
    let h = f.spec_elem_size();
    lemma_rq_ops_wf((f.index as int, 1int), h);
    let m = rq_mul((f.index as int, 1int), h);
    lemma_rq_ops_wf(m, h);
}

impl BaseFunction for SimpleBaseFunction {
    open spec fn inv(&self) -> bool {
        &&& 1 <= self.elements_count <= 0x7fff_ffff_ffff_ffff
        &&& self.index <= self.elements_count
        &&& self.range_lo.wf()
        &&& self.range_hi.wf()
    }

    open spec fn sindex(&self) -> int {
        self.index as int
    }

    open spec fn scount(&self) -> int {
        self.elements_count as int
    }

    open spec fn srange(&self) -> ((int, int), (int, int)) {
        (self.range_lo@, self.range_hi@)
    }

    open spec fn value_at(&self, x: (int, int)) -> (int, int) {
        let h = self.spec_elem_size();
        let p = self.spec_points();
        if rq_le(p.0, x) && rq_le(x, p.1) {
            rq_div(rq_sub(x, p.0), h)
        } else if rq_lt(p.1, x) && rq_le(x, p.2) {
            rq_div(rq_sub(p.2, x), h)
        } else {
            (0int, 1int)
        }
    }

    open spec fn slope_at(&self, x: (int, int)) -> (int, int) {
        let h = self.spec_elem_size();
        let p = self.spec_points();
        if rq_le(p.0, x) && rq_le(x, p.1) {
            rq_div((1int, 1int), h)
        } else if rq_lt(p.1, x) && rq_le(x, p.2) {
            rq_div((-1int, 1int), h)
        } else {
            (0int, 1int)
        }
    }

    open spec fn support(&self) -> ((int, int), (int, int)) {
        (self.spec_points().0, self.spec_points().2)
    }

    open spec fn value_ok(&self, x: (int, int)) -> bool {
        let bx = (abs_i(x.0), x.1);
        &&& self.points_ok()
        &&& rq_lt(self.srange().0, self.srange().1)
        &&& rq_fits(rq_add(bx, self.b_edge()))
        &&& rq_fits(rq_div(rq_add(bx, self.b_edge()), self.b_elem()))
    }

    open spec fn slope_ok(&self) -> bool {
        &&& self.points_ok()
        &&& rq_lt(self.srange().0, self.srange().1)
        &&& rq_fits(rq_div((1int, 1int), self.b_elem()))
    }

    open spec fn support_ok(&self) -> bool {
        self.points_ok()
    }

    proof fn value_congruent(&self, x: (int, int), x2: (int, int)) {
        lemma_canon_wf(*self);
        let h = self.spec_elem_size();
        let p = self.spec_points();
        lemma_rq_ops_wf(x, p.0);
        lemma_rq_ops_wf(x2, p.0);
        lemma_rq_ops_wf(p.2, x);
        lemma_rq_ops_wf(p.2, x2);
        lemma_div_den_nonneg(rq_sub(x, p.0), h);
        lemma_div_den_nonneg(rq_sub(x2, p.0), h);
        lemma_div_den_nonneg(rq_sub(p.2, x), h);
        lemma_div_den_nonneg(rq_sub(p.2, x2), h);
        lemma_cmp_step(p.0, p.0, x, x2);
        lemma_cmp_step(x, x2, p.1, p.1);
        lemma_cmp_step(p.1, p.1, x, x2);
        lemma_cmp_step(x, x2, p.2, p.2);
        if rq_le(p.0, x) && rq_le(x, p.1) {
            lemma_sub_cong(x, x2, p.0, p.0);
            lemma_rq_ops_wf(x, p.0);
            lemma_rq_ops_wf(x2, p.0);
            if h.0 != 0 {
                lemma_div_cong(rq_sub(x, p.0), rq_sub(x2, p.0), h, h);
                lemma_rq_ops_wf(rq_sub(x, p.0), h);
                lemma_rq_ops_wf(rq_sub(x2, p.0), h);
            } else {
                assert(rq_sub(x, p.0).1 * h.0 == 0) by (nonlinear_arith)
                    requires h.0 == 0;
                assert(rq_sub(x2, p.0).1 * h.0 == 0) by (nonlinear_arith)
                    requires h.0 == 0;
                assert(rq_eq(rq_div(rq_sub(x, p.0), h), rq_div(rq_sub(x2, p.0), h)))
                    by (nonlinear_arith)
                    requires rq_sub(x, p.0).1 * h.0 == 0, rq_sub(x2, p.0).1 * h.0 == 0, !(h.0 < 0);
            }
        } else if rq_lt(p.1, x) && rq_le(x, p.2) {
            lemma_sub_cong(p.2, p.2, x, x2);
            lemma_rq_ops_wf(p.2, x);
            lemma_rq_ops_wf(p.2, x2);
            if h.0 != 0 {
                lemma_div_cong(rq_sub(p.2, x), rq_sub(p.2, x2), h, h);
                lemma_rq_ops_wf(rq_sub(p.2, x), h);
                lemma_rq_ops_wf(rq_sub(p.2, x2), h);
            } else {
                assert(rq_sub(p.2, x).1 * h.0 == 0) by (nonlinear_arith)
                    requires h.0 == 0;
                assert(rq_sub(p.2, x2).1 * h.0 == 0) by (nonlinear_arith)
                    requires h.0 == 0;
                assert(rq_eq(rq_div(rq_sub(p.2, x), h), rq_div(rq_sub(p.2, x2), h)))
                    by (nonlinear_arith)
                    requires rq_sub(p.2, x).1 * h.0 == 0, rq_sub(p.2, x2).1 * h.0 == 0, !(h.0 < 0);
            }
        }
    }

    proof fn slope_congruent(&self, x: (int, int), x2: (int, int)) {
        lemma_canon_wf(*self);
        let p = self.spec_points();
        lemma_div_den_nonneg((1int, 1int), self.spec_elem_size());
        lemma_div_den_nonneg((-1int, 1int), self.spec_elem_size());
        lemma_cmp_step(p.0, p.0, x, x2);
        lemma_cmp_step(x, x2, p.1, p.1);
        lemma_cmp_step(p.1, p.1, x, x2);
        lemma_cmp_step(x, x2, p.2, p.2);
    }

    fn new(index: usize, elements_count: usize, range_lo: Rat, range_hi: Rat) -> (r: Self) {
        SimpleBaseFunction { index, elements_count, range_lo, range_hi }
    }

    fn regular(&self, x: &Rat) -> (r: Option<Rat>) {
        proof {
            lemma_canon_wf(*self);
        }
        let h = match self.get_elem_size() {
            Some(h) => h,
            None => { return None; },
        };
        let pts = match self.get_points() {
            Some(p) => p,
            None => { return None; },
        };
        let (low, mid, high) = pts;
        let ghost hc = self.spec_elem_size();
        let ghost pc = self.spec_points();
        proof {
            lemma_cmp_step(low@, pc.0, x@, x@);
            lemma_cmp_step(x@, x@, mid@, pc.1);
            lemma_cmp_step(mid@, pc.1, x@, x@);
            lemma_cmp_step(x@, x@, high@, pc.2);
        }
        if low.le(x) && x.le(&mid) {
            proof {
                lemma_bnd_add(x@, low@, (abs_i(x@.0), x@.1), self.b_edge());
            }
            let numer = match x.sub(&low) {
                Some(v) => v,
                None => { return None; },
            };
            proof {
                if self.value_ok(x@) {
                    lemma_points_ordered(*self);
                    lemma_cmp_step((0int, 1int), (0int, 1int), h@, hc);
                    lemma_bnd_div(
                        numer@,
                        h@,
                        rq_add((abs_i(x@.0), x@.1), self.b_edge()),
                        self.b_elem(),
                    );
                }
            }
            let v = match numer.div(&h) {
                Some(v) => v,
                None => { return None; },
            };
            proof {
                lemma_rq_ops_wf(x@, pc.0);
                lemma_sub_step(numer@, x@, x@, low@, pc.0);
                lemma_div_step(v@, numer@, rq_sub(x@, pc.0), h@, hc);
                lemma_rq_ops_wf(rq_sub(x@, pc.0), hc);
            }
            Some(v)
        } else if mid.lt(x) && x.le(&high) {
            proof {
                lemma_bnd_add(x@, high@, (abs_i(x@.0), x@.1), self.b_edge());
            }
            let numer = match high.sub(x) {
                Some(v) => v,
                None => { return None; },
            };
            proof {
                if self.value_ok(x@) {
                    lemma_points_ordered(*self);
                    lemma_cmp_step((0int, 1int), (0int, 1int), h@, hc);
                    lemma_bnd_div(
                        numer@,
                        h@,
                        rq_add((abs_i(x@.0), x@.1), self.b_edge()),
                        self.b_elem(),
                    );
                }
            }
            let v = match numer.div(&h) {
                Some(v) => v,
                None => { return None; },
            };
            proof {
                lemma_rq_ops_wf(pc.2, x@);
                lemma_sub_step(numer@, high@, pc.2, x@, x@);
                lemma_div_step(v@, numer@, rq_sub(pc.2, x@), h@, hc);
                lemma_rq_ops_wf(rq_sub(pc.2, x@), hc);
            }
            Some(v)
        } else {
            Some(Rat::zero())
        }
    }

    fn derivative(&self, x: &Rat) -> (r: Option<Rat>) {
        proof {
            lemma_canon_wf(*self);
        }
        let h = match self.get_elem_size() {
            Some(h) => h,
            None => { return None; },
        };
        let pts = match self.get_points() {
            Some(p) => p,
            None => { return None; },
        };
        let (low, mid, high) = pts;
        let ghost hc = self.spec_elem_size();
        let ghost pc = self.spec_points();
        proof {
            lemma_cmp_step(low@, pc.0, x@, x@);
            lemma_cmp_step(x@, x@, mid@, pc.1);
            lemma_cmp_step(mid@, pc.1, x@, x@);
            lemma_cmp_step(x@, x@, high@, pc.2);
        }
        if low.le(x) && x.le(&mid) {
            let one = Rat::from_int(1);
            proof {
                if self.slope_ok() {
                    lemma_points_ordered(*self);
                    lemma_cmp_step((0int, 1int), (0int, 1int), h@, hc);
                    lemma_bnd_div(one@, h@, (1int, 1int), self.b_elem());
                }
            }
            let v = match one.div(&h) {
                Some(v) => v,
                None => { return None; },
            };
            proof {
                lemma_div_step(v@, one@, (1int, 1int), h@, hc);
                lemma_rq_ops_wf((1int, 1int), hc);
            }
            Some(v)
        } else if mid.lt(x) && x.le(&high) {
            let minus_one = Rat::from_int(-1);
            proof {
                if self.slope_ok() {
                    lemma_points_ordered(*self);
                    lemma_cmp_step((0int, 1int), (0int, 1int), h@, hc);
                    lemma_bnd_div(minus_one@, h@, (1int, 1int), self.b_elem());
                }
            }
            let v = match minus_one.div(&h) {
                Some(v) => v,
                None => { return None; },
            };
            proof {
                lemma_div_step(v@, minus_one@, (-1int, 1int), h@, hc);
                lemma_rq_ops_wf((-1int, 1int), hc);
            }
            Some(v)
        } else {
            Some(Rat::zero())
        }
    }

    fn non_zero_range(&self) -> (r: Option<(Rat, Rat)>) {
        proof {
            lemma_canon_wf(*self);
        }
        let pts = match self.get_points() {
            Some(p) => p,
            None => { return None; },
        };
        let (low, _mid, high) = pts;
        Some((low, high))
    }
}

} // verus!

verus! {

/// The element size of a hat on a proper domain (`lo < hi`) is a positive
/// rational, and its node points are strictly ordered.
pub proof fn lemma_points_ordered(f: SimpleBaseFunction)
    requires
        f.inv(),
        rq_lt(f.srange().0, f.srange().1),
    ensures
        f.spec_elem_size().0 > 0,
        rq_wf(f.spec_elem_size()),
        rq_lt(f.spec_points().0, f.spec_points().1),
        rq_lt(f.spec_points().1, f.spec_points().2),
        rq_le(f.spec_points().0, f.spec_points().2),
{
    lemma_canon_wf(f);
    let s = rq_sub(f.range_hi@, f.range_lo@);
    let h = f.spec_elem_size();
    let m = f.spec_points().1;
    assert(s.0 > 0);
    assert(h.0 == s.0 * 1 && h.0 > 0) by (nonlinear_arith)
        requires
            h.0 == s.0 * 1,
            s.0 > 0,
    ;
    assert(rq_lt(rq_sub(m, h), m) && rq_lt(m, rq_add(m, h)) && rq_le(rq_sub(m, h), rq_add(m, h)))
        by (nonlinear_arith)
        requires
            h.0 > 0,
            h.1 >= 1,
            m.1 >= 1,
    ;
}

/// Basis locality: on a proper domain the hat's value is one at its node,
/// zero at both ends of its support, and zero at any point outside the
/// support.
pub proof fn lemma_basis_locality(f: SimpleBaseFunction, x: (int, int))
    requires
        f.inv(),
        rq_wf(x),
        rq_lt(f.srange().0, f.srange().1),
    ensures
        rq_eq(f.value_at(f.spec_points().1), (1int, 1int)),
        rq_eq(f.value_at(f.spec_points().0), (0int, 1int)),
        rq_eq(f.value_at(f.spec_points().2), (0int, 1int)),
        (rq_le(x, f.spec_points().0) || rq_le(f.spec_points().2, x)) ==> rq_eq(
            f.value_at(x),
            (0int, 1int),
        ),
{
    lemma_canon_wf(f);
    lemma_points_ordered(f);
    let h = f.spec_elem_size();
    let p = f.spec_points();
    // value at the node: (mid - low) / h == h / h == 1
    assert(rq_le(p.0, p.1) && rq_le(p.1, p.1));
    let t = rq_sub(p.1, p.0);
    assert(t.0 == h.0 * (p.1.1 * p.1.1) && t.1 == h.1 * (p.1.1 * p.1.1)) by (nonlinear_arith)
        requires
            t == rq_sub(p.1, rq_sub(p.1, h)),
            p.0 == rq_sub(p.1, h),
    ;
    assert(rq_eq(rq_div(t, h), (1int, 1int))) by (nonlinear_arith)
        requires
            t.0 == h.0 * (p.1.1 * p.1.1),
            t.1 == h.1 * (p.1.1 * p.1.1),
            !(h.0 < 0),
    ;
    // value at the lower support end: (low - low) / h == 0
    let tl = rq_sub(p.0, p.0);
    assert(tl.0 == 0);
    assert(rq_eq(rq_div(tl, h), (0int, 1int))) by (nonlinear_arith)
        requires
            tl.0 == 0,
            !(h.0 < 0),
    ;
    // value at the upper support end: the falling half gives (high - high) / h == 0
    assert(!rq_le(p.2, p.1));
    assert(rq_le(p.0, p.2));
    let tu = rq_sub(p.2, p.2);
    assert(tu.0 == 0);
    assert(rq_eq(rq_div(tu, h), (0int, 1int))) by (nonlinear_arith)
        requires
            tu.0 == 0,
            !(h.0 < 0),
    ;
    // outside the support both branch conditions fail; at the exact ends
    // the value is the zero shown above
    if rq_le(x, p.0) {
        if rq_lt(x, p.0) {
            lemma_rq_lt_le_trans(x, p.0, p.1);
            assert(!rq_le(p.0, x));
            assert(!rq_lt(p.1, x));
        } else {
            f.value_congruent(x, p.0);
            lemma_rq_ops_wf(p.0, p.0);
            lemma_rq_ops_wf(rq_sub(p.0, p.0), h);
            lemma_rq_trans(f.value_at(x), f.value_at(p.0), (0int, 1int));
        }
    }
    if rq_le(p.2, x) {
        if rq_lt(p.2, x) {
            lemma_rq_le_lt_trans(p.0, p.2, x);
            lemma_rq_lt_le_trans(p.1, p.2, p.2);
            assert(!rq_le(x, p.1)) by {
                lemma_rq_lt_le_trans(p.1, p.2, p.2);
                lemma_rq_lt_le_trans(p.1, p.2, x);
            }
            assert(!rq_le(x, p.2));
        } else {
            f.value_congruent(x, p.2);
            lemma_rq_ops_wf(p.2, p.2);
            lemma_rq_ops_wf(rq_sub(p.2, p.2), h);
            lemma_rq_trans(f.value_at(x), f.value_at(p.2), (0int, 1int));
        }
    }
}

/// Derivative sign: strictly inside the rising half the slope is `1/h`,
/// and strictly inside the falling half it is `-1/h` (the node itself
/// resolves to the rising half by the stated convention); outside the
/// support the slope is zero.
pub proof fn lemma_derivative_sign(f: SimpleBaseFunction, x: (int, int))
    requires
        f.inv(),
        rq_wf(x),
        rq_lt(f.srange().0, f.srange().1),
    ensures
        rq_le(f.spec_points().0, x) && rq_le(x, f.spec_points().1) ==> rq_eq(
            f.slope_at(x),
            (f.spec_elem_size().1, f.spec_elem_size().0),
        ),
        rq_lt(f.spec_points().1, x) && rq_le(x, f.spec_points().2) ==> rq_eq(
            f.slope_at(x),
            (-f.spec_elem_size().1, f.spec_elem_size().0),
        ),
        (rq_lt(x, f.spec_points().0) || rq_lt(f.spec_points().2, x)) ==> rq_eq(
            f.slope_at(x),
            (0int, 1int),
        ),
{
    lemma_canon_wf(f);
    lemma_points_ordered(f);
    let h = f.spec_elem_size();
    let p = f.spec_points();
    if rq_lt(x, p.0) {
        lemma_rq_lt_le_trans(x, p.0, p.1);
    }
    if rq_lt(p.2, x) {
        lemma_rq_lt_le_trans(p.1, p.2, p.2);
        lemma_rq_lt_le_trans(p.1, p.2, x);
    }
    if rq_le(p.0, x) && rq_le(x, p.1) {
        assert(rq_eq(rq_div((1int, 1int), h), (h.1, h.0))) by (nonlinear_arith)
            requires
                !(h.0 < 0),
        ;
    } else if rq_lt(p.1, x) && rq_le(x, p.2) {
        assert(rq_eq(rq_div((-1int, 1int), h), (-h.1, h.0))) by (nonlinear_arith)
            requires
                !(h.0 < 0),
        ;
    }
}

} // verus!

verus! {

/// Partition of unity on one element: between two neighbouring nodes, the
/// hat at the left node and the hat at the right node sum to exactly one
/// (and by locality every other hat of the family vanishes there).
pub proof fn lemma_partition_pair(f: SimpleBaseFunction, g: SimpleBaseFunction, x: (int, int))
    requires
        f.inv(),
        g.inv(),
        g.sindex() == f.sindex() + 1,
        g.scount() == f.scount(),
        g.srange() == f.srange(),
        rq_lt(f.srange().0, f.srange().1),
        rq_wf(x),
        rq_le(f.spec_points().1, x),
        rq_le(x, f.spec_points().2),
    ensures
        rq_eq(rq_add(f.value_at(x), g.value_at(x)), (1int, 1int)),
{
    lemma_canon_wf(f);
    lemma_canon_wf(g);
    lemma_points_ordered(f);
    lemma_points_ordered(g);
    let h = f.spec_elem_size();
    let pf = f.spec_points();
    let pg = g.spec_points();
    assert(g.spec_elem_size() == h);
    let i = f.index as int;
    assert(rq_eq(pg.0, pf.1)) by (nonlinear_arith)
        requires
            pg.0 == rq_sub(rq_mul((i + 1, 1int), h), h),
            pf.1 == rq_mul((i, 1int), h),
    ;
    assert(rq_eq(pg.1, pf.2)) by (nonlinear_arith)
        requires
            pg.1 == rq_mul((i + 1, 1int), h),
            pf.2 == rq_add(rq_mul((i, 1int), h), h),
    ;
    lemma_cmp_step(pg.0, pf.1, x, x);
    lemma_cmp_step(x, x, pg.1, pf.2);
    // the quotient (high - mid) / h is exactly one element over h
    let t = rq_sub(pf.2, pf.1);
    assert(t.0 == h.0 * (pf.1.1 * pf.1.1) && t.1 == h.1 * (pf.1.1 * pf.1.1)) by (nonlinear_arith)
        requires
            t == rq_sub(rq_add(pf.1, h), pf.1),
    ;
    assert(rq_eq(rq_div(t, h), (1int, 1int))) by (nonlinear_arith)
        requires
            t.0 == h.0 * (pf.1.1 * pf.1.1),
            t.1 == h.1 * (pf.1.1 * pf.1.1),
            !(h.0 < 0),
            h.0 != 0,
    ;
    if rq_le(x, pf.1) {
        // x is the shared node: the left hat rises to one, the right hat
        // is zero there
        assert(rq_eq(x, pf.1));
        f.value_congruent(x, pf.1);
        lemma_basis_locality(f, x);
        lemma_rq_ops_wf(pf.1, pf.0);
        lemma_rq_ops_wf(rq_sub(pf.1, pf.0), h);
        lemma_rq_trans(f.value_at(x), f.value_at(pf.1), (1int, 1int));
        lemma_rq_trans(x, pf.1, pg.0);
        g.value_congruent(x, pg.0);
        lemma_basis_locality(g, x);
        lemma_rq_ops_wf(pg.0, pg.0);
        lemma_rq_ops_wf(rq_sub(pg.0, pg.0), h);
        lemma_rq_trans(g.value_at(x), g.value_at(pg.0), (0int, 1int));
        lemma_add_cong(f.value_at(x), (1int, 1int), g.value_at(x), (0int, 1int));
        lemma_rq_ops_wf(f.value_at(x), g.value_at(x));
    } else {
        // strictly right of the node: the left hat falls, the right rises
        assert(rq_lt(pf.1, x));
        assert(f.value_at(x) == rq_div(rq_sub(pf.2, x), h));
        assert(rq_le(pg.0, x));
        assert(rq_le(x, pg.1));
        assert(g.value_at(x) == rq_div(rq_sub(x, pg.0), h));
        let s1 = rq_sub(pf.2, x);
        let s2 = rq_sub(x, pf.1);
        lemma_rq_ops_wf(pf.2, x);
        lemma_rq_ops_wf(x, pg.0);
        lemma_rq_ops_wf(x, pf.1);
        lemma_sub_cong(x, x, pg.0, pf.1);
        lemma_div_cong(rq_sub(x, pg.0), s2, h, h);
        lemma_rq_ops_wf(s1, h);
        lemma_rq_ops_wf(s2, h);
        lemma_rq_ops_wf(rq_sub(x, pg.0), h);
        lemma_add_cong(rq_div(s1, h), rq_div(s1, h), rq_div(rq_sub(x, pg.0), h), rq_div(s2, h));
        lemma_div_add_same(s1, s2, h);
        lemma_telescope(pf.2, x, pf.1);
        lemma_div_cong(rq_add(s1, s2), t, h, h);
        lemma_rq_ops_wf(rq_div(s1, h), rq_div(s2, h));
        lemma_rq_ops_wf(s1, s2);
        lemma_rq_ops_wf(rq_add(s1, s2), h);
        lemma_rq_trans(
            rq_add(f.value_at(x), g.value_at(x)),
            rq_add(rq_div(s1, h), rq_div(s2, h)),
            rq_div(rq_add(s1, s2), h),
        );
        lemma_rq_trans(
            rq_add(f.value_at(x), g.value_at(x)),
            rq_div(rq_add(s1, s2), h),
            rq_div(t, h),
        );
        lemma_rq_ops_wf(pf.2, pf.1);
        lemma_rq_ops_wf(t, h);
        lemma_rq_trans(rq_add(f.value_at(x), g.value_at(x)), rq_div(t, h), (1int, 1int));
    }
}

} // verus!

verus! {

/// Ring expansions used by the value-range proof: the numerator of
/// `(x - (mid - h)) / h` and of `((mid + h) - x) / h`, cross-multiplied.
proof fn lemma_tent_expand(x0: int, x1: int, m0: int, m1: int, h0: int, h1: int)
    ensures
        (x0 * (m1 * h1) - (m0 * h1 - h0 * m1) * x1) * h1 == (x0 * m1 - m0 * x1) * (h1 * h1) + (h0
            * m1) * (h1 * x1),
        ((m0 * h1 + h0 * m1) * x1 - x0 * (m1 * h1)) * h1 == (m0 * x1 - x0 * m1) * (h1 * h1) + (h0
            * m1) * (h1 * x1),
{
    assert((x0 * (m1 * h1) - (m0 * h1 - h0 * m1) * x1) * h1 == (x0 * (m1 * h1)) * h1 - ((m0 * h1
        - h0 * m1) * x1) * h1) by (nonlinear_arith);
    assert(((m0 * h1 + h0 * m1) * x1 - x0 * (m1 * h1)) * h1 == ((m0 * h1 + h0 * m1) * x1) * h1 - (
    x0 * (m1 * h1)) * h1) by (nonlinear_arith);
    assert((x0 * (m1 * h1)) * h1 == (x0 * m1) * (h1 * h1)) by (nonlinear_arith);
    assert(((m0 * h1 - h0 * m1) * x1) * h1 == ((m0 * h1) * x1) * h1 - ((h0 * m1) * x1) * h1)
        by (nonlinear_arith);
    assert(((m0 * h1 + h0 * m1) * x1) * h1 == ((m0 * h1) * x1) * h1 + ((h0 * m1) * x1) * h1)
        by (nonlinear_arith);
    assert(((m0 * h1) * x1) * h1 == (m0 * x1) * (h1 * h1)) by (nonlinear_arith);
    assert(((h0 * m1) * x1) * h1 == (h0 * m1) * (h1 * x1)) by (nonlinear_arith);
    assert((x0 * m1 - m0 * x1) * (h1 * h1) == (x0 * m1) * (h1 * h1) - (m0 * x1) * (h1 * h1))
        by (nonlinear_arith);
    assert((m0 * x1 - x0 * m1) * (h1 * h1) == (m0 * x1) * (h1 * h1) - (x0 * m1) * (h1 * h1))
        by (nonlinear_arith);
}

/// On a proper domain the hat's value lies between zero and one, and it
/// reaches one only at the node.
pub proof fn lemma_value_bounds(f: SimpleBaseFunction, x: (int, int))
    requires
        f.inv(),
        rq_wf(x),
        rq_lt(f.srange().0, f.srange().1),
    ensures
        rq_le((0int, 1int), f.value_at(x)),
        rq_le(f.value_at(x), (1int, 1int)),
        rq_eq(f.value_at(x), (1int, 1int)) ==> rq_eq(x, f.spec_points().1),
{
    lemma_canon_wf(f);
    lemma_points_ordered(f);
    let h = f.spec_elem_size();
    let p = f.spec_points();
    let m = p.1;
    if rq_le(p.0, x) && rq_le(x, p.1) {
        let t = rq_sub(x, p.0);
        lemma_rq_ops_wf(x, p.0);
        assert(t.0 >= 0);
        assert(rq_le((0int, 1int), rq_div(t, h))) by (nonlinear_arith)
            requires
                t.0 >= 0,
                t.1 >= 1,
                h.0 > 0,
                h.1 >= 1,
        ;
        lemma_tent_expand(x.0, x.1, m.0, m.1, h.0, h.1);
        assert(t.0 == x.0 * (m.1 * h.1) - (m.0 * h.1 - h.0 * m.1) * x.1);
        assert(t.0 * h.1 == (x.0 * m.1 - m.0 * x.1) * (h.1 * h.1) + (h.0 * m.1) * (h.1 * x.1));
        assert((x.0 * m.1 - m.0 * x.1) * (h.1 * h.1) <= 0) by (nonlinear_arith)
            requires
                x.0 * m.1 <= m.0 * x.1,
                h.1 >= 1,
        ;
        assert(t.1 * h.0 == (h.0 * m.1) * (h.1 * x.1)) by (nonlinear_arith)
            requires
                t.1 == x.1 * (m.1 * h.1),
        ;
        assert(rq_le(rq_div(t, h), (1int, 1int))) by (nonlinear_arith)
            requires
                t.0 * h.1 <= t.1 * h.0,
                !(h.0 < 0),
        ;
        if rq_eq(rq_div(t, h), (1int, 1int)) {
            assert(t.0 * h.1 == t.1 * h.0) by (nonlinear_arith)
                requires
                    rq_eq(rq_div(t, h), (1int, 1int)),
                    !(h.0 < 0),
            ;
            assert(x.0 * m.1 - m.0 * x.1 == 0) by (nonlinear_arith)
                requires
                    (x.0 * m.1 - m.0 * x.1) * (h.1 * h.1) == 0,
                    h.1 >= 1,
            ;
        }
    } else if rq_lt(p.1, x) && rq_le(x, p.2) {
        let t = rq_sub(p.2, x);
        lemma_rq_ops_wf(p.2, x);
        assert(t.0 >= 0);
        assert(rq_le((0int, 1int), rq_div(t, h))) by (nonlinear_arith)
            requires
                t.0 >= 0,
                t.1 >= 1,
                h.0 > 0,
                h.1 >= 1,
        ;
        lemma_tent_expand(x.0, x.1, m.0, m.1, h.0, h.1);
        assert(t.0 == (m.0 * h.1 + h.0 * m.1) * x.1 - x.0 * (m.1 * h.1));
        assert(t.0 * h.1 == (m.0 * x.1 - x.0 * m.1) * (h.1 * h.1) + (h.0 * m.1) * (h.1 * x.1));
        assert((m.0 * x.1 - x.0 * m.1) * (h.1 * h.1) <= 0) by (nonlinear_arith)
            requires
                m.0 * x.1 <= x.0 * m.1,
                h.1 >= 1,
        ;
        assert(t.1 * h.0 == (h.0 * m.1) * (h.1 * x.1)) by (nonlinear_arith)
            requires
                t.1 == (m.1 * h.1) * x.1,
        ;
        assert(rq_le(rq_div(t, h), (1int, 1int))) by (nonlinear_arith)
            requires
                t.0 * h.1 <= t.1 * h.0,
                !(h.0 < 0),
        ;
        if rq_eq(rq_div(t, h), (1int, 1int)) {
            assert(t.0 * h.1 == t.1 * h.0) by (nonlinear_arith)
                requires
                    rq_eq(rq_div(t, h), (1int, 1int)),
                    !(h.0 < 0),
            ;
            assert(m.0 * x.1 - x.0 * m.1 == 0) by (nonlinear_arith)
                requires
                    (m.0 * x.1 - x.0 * m.1) * (h.1 * h.1) == 0,
                    h.1 >= 1,
            ;
        }
    }
}

} // verus!

verus! {

/// On a proper partition (positive element size) every hat value is a
/// well-formed rational.
proof fn lemma_value_wf(f: SimpleBaseFunction, x: (int, int))
    requires
        f.inv(),
        rq_wf(x),
        f.spec_elem_size().0 > 0,
    ensures
        rq_wf(f.value_at(x)),
{
    lemma_canon_wf(f);
    let h = f.spec_elem_size();
    let p = f.spec_points();
    if rq_le(p.0, x) && rq_le(x, p.1) {
        lemma_rq_ops_wf(x, p.0);
        lemma_rq_ops_wf(rq_sub(x, p.0), h);
    } else if rq_lt(p.1, x) && rq_le(x, p.2) {
        lemma_rq_ops_wf(p.2, x);
        lemma_rq_ops_wf(rq_sub(p.2, x), h);
    }
}

/// The values of the first `k` hats of a family at `x`, summed in order.
pub open spec fn spec_hat_sum(bs: Seq<SimpleBaseFunction>, x: (int, int), k: int) -> (int, int)
    decreases k,
{
    if k <= 0 {
        (0int, 1int)
    } else {
        rq_add(spec_hat_sum(bs, x, k - 1), bs[k - 1].value_at(x))
    }
}

/// One hat per node `0 ..= n`, all on the same `n`-element partition of
/// `[lo, hi)` (the basis set that two free boundary flags determine).
pub open spec fn full_hat_family(bs: Seq<SimpleBaseFunction>, n: int, lo: Rat, hi: Rat) -> bool {
    &&& bs.len() == n + 1
    &&& forall|j: int|
        0 <= j <= n ==> {
            let b = #[trigger] bs[j];
            &&& b.index == j
            &&& b.elements_count == n
            &&& b.range_lo@ == lo@
            &&& b.range_hi@ == hi@
        }
}

proof fn lemma_hat_sum_accum(bs: Seq<SimpleBaseFunction>, x: (int, int), k: int, n: int, m: int)
    requires
        0 <= k,
        k + 1 <= n,
        0 <= m <= n + 1,
        bs.len() == n + 1,
        forall|j: int| 0 <= j <= n ==> rq_wf(#[trigger] bs[j].value_at(x)),
        forall|j: int|
            0 <= j <= n && j != k && j != k + 1 ==> rq_eq(
                #[trigger] bs[j].value_at(x),
                (0int, 1int),
            ),
        rq_eq(rq_add(bs[k].value_at(x), bs[k + 1].value_at(x)), (1int, 1int)),
    ensures
        rq_wf(spec_hat_sum(bs, x, m)),
        m <= k ==> rq_eq(spec_hat_sum(bs, x, m), (0int, 1int)),
        m == k + 1 ==> rq_eq(spec_hat_sum(bs, x, m), bs[k].value_at(x)),
        m >= k + 2 ==> rq_eq(spec_hat_sum(bs, x, m), (1int, 1int)),
    decreases m,
{
    if m <= 0 {
    } else {
        lemma_hat_sum_accum(bs, x, k, n, m - 1);
        let s = spec_hat_sum(bs, x, m - 1);
        let v = bs[m - 1].value_at(x);
        lemma_rq_ops_wf(s, v);
        if m - 1 < k {
            lemma_add_cong(s, (0int, 1int), v, (0int, 1int));
        } else if m - 1 == k {
            lemma_add_cong(s, (0int, 1int), v, v);
            lemma_rq_trans(rq_add(s, v), rq_add((0int, 1int), v), v);
        } else if m - 1 == k + 1 {
            lemma_add_cong(s, bs[k].value_at(x), v, v);
            lemma_rq_ops_wf(bs[k].value_at(x), v);
            lemma_rq_trans(rq_add(s, v), rq_add(bs[k].value_at(x), v), (1int, 1int));
        } else {
            lemma_add_cong(s, (1int, 1int), v, (0int, 1int));
        }
    }
}

/// Partition of unity: for the full hat family (both boundary nodes
/// included) over a domain that starts at zero, the hat values at any
/// point strictly inside the domain sum to exactly one. (For a domain not
/// starting at zero the property fails, since the nodes sit at `i*h`
/// rather than `lo + i*h`.)
pub proof fn lemma_partition_of_unity(
    bs: Seq<SimpleBaseFunction>,
    n: int,
    lo: Rat,
    hi: Rat,
    x: (int, int),
)
    requires
        1 <= n <= 0x7fff_ffff_ffff_ffff,
        lo.wf(),
        hi.wf(),
        rq_eq(lo@, (0int, 1int)),
        rq_lt(lo@, hi@),
        full_hat_family(bs, n, lo, hi),
        rq_wf(x),
        rq_lt(lo@, x),
        rq_lt(x, hi@),
    ensures
        rq_eq(spec_hat_sum(bs, x, n + 1), (1int, 1int)),
{
    let f0 = bs[0];
    assert forall|j: int| 0 <= j <= n implies (#[trigger] bs[j]).inv()
        && bs[j].spec_elem_size() == f0.spec_elem_size() by {}
    lemma_points_ordered(f0);
    lemma_canon_wf(f0);
    let h = f0.spec_elem_size();
    assert(lo@.0 == 0);
    assert(x.0 >= 1) by (nonlinear_arith)
        requires
            lo@.0 * x.1 < x.0 * lo@.1,
            lo@.0 == 0,
            lo@.1 >= 1,
            x.1 >= 1,
    ;
    let xa = x.0 * h.1;
    let xb = x.1 * h.0;
    assert(xa >= 1 && xb >= 1) by (nonlinear_arith)
        requires
            xa == x.0 * h.1,
            xb == x.1 * h.0,
            x.0 >= 1,
            x.1 >= 1,
            h.0 >= 1,
            h.1 >= 1,
    ;
    let k = xa / xb;
    let r = xa % xb;
    lemma_fundamental_div_mod(xa, xb);
    assert(0 <= xa % xb < xb) by (nonlinear_arith)
        requires
            xb >= 1,
    ;
    assert(k >= 0) by (nonlinear_arith)
        requires
            xb * k + r == xa,
            0 <= r < xb,
            xb >= 1,
            xa >= 0,
    ;
    // the domain's upper end is the `n`-th node position
    assert(rq_eq((n * h.0, 1int * h.1), hi@)) by (nonlinear_arith)
        requires
            h.0 == (hi@.0 * lo@.1 - lo@.0 * hi@.1) * 1,
            h.1 == (hi@.1 * lo@.1) * n,
            lo@.0 == 0,
            n >= 1,
    ;
    assert(1int * h.1 >= 1);
    lemma_cmp_step(x, x, hi@, (n * h.0, 1int * h.1));
    assert(xa < n * xb) by (nonlinear_arith)
        requires
            x.0 * (1 * h.1) < (n * h.0) * x.1,
            xa == x.0 * h.1,
            xb == x.1 * h.0,
    ;
    assert(k < n) by (nonlinear_arith)
        requires
            xb * k + r == xa,
            0 <= r,
            xa < n * xb,
            xb >= 1,
    ;
    // x lies in the element between nodes k and k + 1
    assert(rq_le((k * h.0, 1int * h.1), x)) by (nonlinear_arith)
        requires
            xb * k + r == xa,
            r >= 0,
            xa == x.0 * h.1,
            xb == x.1 * h.0,
    ;
    assert(rq_lt(x, ((k + 1) * h.0, 1int * h.1))) by (nonlinear_arith)
        requires
            xb * k + r == xa,
            r < xb,
            xa == x.0 * h.1,
            xb == x.1 * h.0,
    ;
    let fk = bs[k];
    let gk = bs[k + 1];
    lemma_canon_wf(fk);
    assert(fk.spec_points().1 == (k * h.0, 1int * h.1));
    assert(rq_eq(((k + 1) * h.0, 1int * h.1), fk.spec_points().2)) by (nonlinear_arith)
        requires
            fk.spec_points().2 == rq_add((k * h.0, 1int * h.1), h),
    ;
    lemma_cmp_step(x, x, ((k + 1) * h.0, 1int * h.1), fk.spec_points().2);
    lemma_partition_pair(fk, gk, x);
    assert forall|j: int|
        0 <= j <= n && j != k && j != k + 1 implies rq_eq(
        #[trigger] bs[j].value_at(x),
        (0int, 1int),
    ) by {
        lemma_canon_wf(bs[j]);
        lemma_points_ordered(bs[j]);
        let pj = bs[j].spec_points();
        if j < k {
            assert(rq_eq(pj.2, ((j + 1) * h.0, 1int * h.1))) by (nonlinear_arith)
                requires
                    pj.2 == rq_add(rq_mul((j, 1int), h), h),
            ;
            assert(rq_le(((j + 1) * h.0, 1int * h.1), (k * h.0, 1int * h.1))) by (nonlinear_arith)
                requires
                    j + 1 <= k,
                    h.0 >= 1,
                    h.1 >= 1,
            ;
            lemma_rq_le_trans(((j + 1) * h.0, 1int * h.1), (k * h.0, 1int * h.1), x);
            lemma_cmp_step(pj.2, ((j + 1) * h.0, 1int * h.1), x, x);
            lemma_basis_locality(bs[j], x);
        } else {
            assert(rq_eq(pj.0, ((j - 1) * h.0, 1int * h.1))) by (nonlinear_arith)
                requires
                    pj.0 == rq_sub(rq_mul((j, 1int), h), h),
            ;
            assert(rq_le(((k + 1) * h.0, 1int * h.1), ((j - 1) * h.0, 1int * h.1)))
                by (nonlinear_arith)
                requires
                    k + 1 <= j - 1,
                    h.0 >= 1,
                    h.1 >= 1,
            ;
            lemma_rq_lt_le_trans(x, ((k + 1) * h.0, 1int * h.1), ((j - 1) * h.0, 1int * h.1));
            lemma_cmp_step(x, x, pj.0, ((j - 1) * h.0, 1int * h.1));
            lemma_basis_locality(bs[j], x);
        }
    }
    assert forall|j: int| 0 <= j <= n implies rq_wf(#[trigger] bs[j].value_at(x)) by {
        lemma_value_wf(bs[j], x);
    }
    lemma_hat_sum_accum(bs, x, k, n, n + 1);
}

} // verus!
