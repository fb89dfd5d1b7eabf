//! Whether a point lies in a cone, with a separating vector where it does not.

use crate::arithmetic::Arithmetic;
use crate::cone::{self, Cone};
use crate::number::{minus_one, one, zero, Real};
use crate::tape::ROOT_HALF;
use vstd::prelude::*;

verus! {

/// The bit pattern of the square root of two.
pub const ROOT_TWO: u64 = 0x3ff6a09e667f3bcd;

/// The bit patterns of plus and minus seven hundred.
pub const LARGE_EXPONENT: u64 = 0x4085e00000000000;

pub const SMALL_EXPONENT: u64 = 0xc085e00000000000;

/// The bit pattern of the smallest positive normal number.
pub const MIN_POSITIVE: u64 = 0x0010000000000000;

/// Where a point lies.
pub enum Membership {
    Inside,
    Outside(Vec<Real>),
    Unknown,
}

/// What a membership says.
pub ghost enum Verdict {
    Inside,
    Outside(Seq<Real>),
    Unknown,
}

impl Membership {
    pub open spec fn view(&self) -> Verdict {
        match self {
            Membership::Inside => Verdict::Inside,
            Membership::Outside(w) => Verdict::Outside(w@),
            Membership::Unknown => Verdict::Unknown,
        }
    }
}

/// The value of an operation on one number.
pub open spec fn value_of<F: Fn(Real) -> Real>(f: F, a: Real) -> Real {
    choose|r: Real| call_ensures(f, (a,), r)
}

/// The operation accepts any number and depends on nothing else.
pub open spec fn pure<F: Fn(Real) -> Real>(f: F) -> bool {
    &&& forall|a: Real| #[trigger] call_requires(f, (a,))
    &&& forall|a: Real, r: Real| #[trigger] call_ensures(f, (a,), r) ==> r == value_of(f, a)
}

/// The natural logarithm and the exponential.
pub struct Growth<L, E> {
    pub ln: L,
    pub exp: E,
}

impl<L: Fn(Real) -> Real, E: Fn(Real) -> Real> Growth<L, E> {
    pub open spec fn wf(&self) -> bool {
        pure(self.ln) && pure(self.exp)
    }

    pub open spec fn log(&self, a: Real) -> Real {
        value_of(self.ln, a)
    }

    pub open spec fn power(&self, a: Real) -> Real {
        value_of(self.exp, a)
    }
}

/// A vector with one entry that may differ from zero.
pub open spec fn unit(n: nat, i: int, value: Real) -> Seq<Real> {
    Seq::new(
        n,
        |k: int|
            if k == i {
                value
            } else {
                zero()
            },
    )
}

/// The first place, from one on, where a test holds; the length where none does.
pub open spec fn first_place(x: Seq<Real>, from: nat, test: spec_fn(Real) -> bool) -> nat
    decreases x.len() - from,
{
    if from >= x.len() {
        x.len()
    } else if test(x[from as int]) {
        from
    } else {
        first_place(x, from + 1, test)
    }
}

/// A number kept between two others.
pub open spec fn clamped(x: Real, low: Real, high: Real) -> Real {
    if x.lt(low) {
        low
    } else if high.lt(x) {
        high
    } else {
        x
    }
}

impl<
    P: Fn(Real, Real) -> Real,
    T: Fn(Real, Real) -> Real,
    D: Fn(Real, Real) -> Real,
    H: Fn(Real, Real) -> Real,
> Arithmetic<P, T, D, H> {
    /// The inner product of the first entries, from the left.
    pub open spec fn inner(&self, w: Seq<Real>, x: Seq<Real>, n: nat) -> Real
        decreases n,
    {
        if n == 0 {
            zero()
        } else {
            self.sum(
                self.inner(w, x, (n - 1) as nat),
                self.product(w[n - 1], x[n - 1]),
            )
        }
    }

    /// The sum of the absolute terms of the inner product.
    pub open spec fn inner_scale(&self, w: Seq<Real>, x: Seq<Real>, n: nat) -> Real
        decreases n,
    {
        if n == 0 {
            zero()
        } else {
            self.sum(
                self.inner_scale(w, x, (n - 1) as nat),
                self.product(w[n - 1], x[n - 1]).absolute(),
            )
        }
    }

    /// The inner product is negative beyond rounding.
    pub open spec fn separates(&self, w: Seq<Real>, x: Seq<Real>, tolerance: Real) -> bool {
        let dot = self.inner(w, x, x.len());
        let scale = self.inner_scale(w, x, x.len());
        dot.finite() && dot.lt(self.product(tolerance.opposite(), self.sum(one(), scale)))
    }

    /// A candidate for a separating vector, tested.
    pub open spec fn tested(&self, w: Seq<Real>, x: Seq<Real>, tolerance: Real) -> Verdict {
        if self.separates(w, x, tolerance) {
            Verdict::Outside(w)
        } else {
            Verdict::Unknown
        }
    }

    pub(crate) fn separate(&self, w: Vec<Real>, x: &Vec<Real>, tolerance: Real) -> (m: Membership)
        requires
            self.wf(),
            w@.len() == x@.len(),
        ensures
            m@ == self.tested(w@, x@, tolerance),
    {
        let mut dot = zero();
        let mut scale = zero();
        let mut k: usize = 0;
        while k < x.len()
            invariant
                k <= x@.len(),
                w@.len() == x@.len(),
                self.wf(),
                dot == self.inner(w@, x@, k as nat),
                scale == self.inner_scale(w@, x@, k as nat),
            decreases x@.len() - k,
        {
            let term = self.product_of(w[k], x[k]);
            dot = self.sum_of(dot, term);
            scale = self.sum_of(scale, term.abs());
            k = k + 1;
        }
        let limit = self.product_of(tolerance.neg(), self.sum_of(one(), scale));
        if dot.is_finite() && dot.less(limit) {
            Membership::Outside(w)
        } else {
            Membership::Unknown
        }
    }

    fn coordinate(&self, x: &Vec<Real>, i: usize, value: Real, tolerance: Real) -> (m: Membership)
        requires
            self.wf(),
            i < x@.len(),
        ensures
            m@ == self.tested(unit(x@.len(), i as int, value), x@, tolerance),
    {
        let mut w: Vec<Real> = Vec::new();
        let mut k: usize = 0;
        while k < x.len()
            invariant
                k <= x@.len(),
                w@ == unit(x@.len(), i as int, value).take(k as int),
            decreases x@.len() - k,
        {
            w.push(
                if k == i {
                    value
                } else {
                    zero()
                },
            );
            k = k + 1;
            assert(w@ =~= unit(x@.len(), i as int, value).take(k as int));
        }
        assert(w@ =~= unit(x@.len(), i as int, value));
        self.separate(w, x, tolerance)
    }

    /// The norm of the entries after the first.
    pub open spec fn tail_norm(&self, x: Seq<Real>, n: nat) -> Real
        decreases n,
    {
        if n <= 1 {
            zero()
        } else {
            self.length(self.tail_norm(x, (n - 1) as nat), x[n - 1])
        }
    }

    /// The gradient of the second-order cone at a point outside of it.
    pub open spec fn cone_slope(&self, x: Seq<Real>, norm: Real) -> Seq<Real> {
        Seq::new(
            x.len(),
            |k: int|
                if k == 0 {
                    one()
                } else {
                    self.quotient(x[k].opposite(), norm)
                },
        )
    }

    pub open spec fn second_order(&self, x: Seq<Real>, tolerance: Real) -> Verdict {
        let norm = self.tail_norm(x, x.len());
        if norm.le(x[0]) {
            Verdict::Inside
        } else if norm.zero() {
            self.tested(unit(x.len(), 0, one()), x, tolerance)
        } else {
            self.tested(self.cone_slope(x, norm), x, tolerance)
        }
    }

    fn classify_second_order(&self, x: &Vec<Real>, tolerance: Real) -> (m: Membership)
        requires
            self.wf(),
            x@.len() > 0,
        ensures
            m@ == self.second_order(x@, tolerance),
            m matches Membership::Outside(w) ==> w@.len() == x@.len(),
    {
        let mut norm = zero();
        let mut k: usize = 1;
        while k < x.len()
            invariant
                1 <= k <= x@.len(),
                self.wf(),
                norm == self.tail_norm(x@, k as nat),
            decreases x@.len() - k,
        {
            norm = self.length_of(norm, x[k]);
            k = k + 1;
        }
        if norm.at_most(x[0]) {
            Membership::Inside
        } else if norm.is_zero() {
            self.coordinate(x, 0, one(), tolerance)
        } else {
            let mut w: Vec<Real> = Vec::new();
            w.push(one());
            let mut k: usize = 1;
            assert(w@ =~= self.cone_slope(x@, norm).take(1));
            while k < x.len()
                invariant
                    1 <= k <= x@.len(),
                    self.wf(),
                    w@ == self.cone_slope(x@, norm).take(k as int),
                decreases x@.len() - k,
            {
                w.push(self.quotient_of(x[k].neg(), norm));
                k = k + 1;
                assert(w@ =~= self.cone_slope(x@, norm).take(k as int));
            }
            assert(w@ =~= self.cone_slope(x@, norm));
            self.separate(w, x, tolerance)
        }
    }

    /// Sum and difference of the first two entries, over the square root of two.
    pub open spec fn rotated(&self, x: Seq<Real>) -> Seq<Real> {
        let q = Real { bits: ROOT_HALF };
        let (a, b) = (self.product(q, x[0]), self.product(q, x[1]));
        x.update(0, self.sum(a, b)).update(1, self.difference(a, b))
    }

    fn rotate(&self, x: &Vec<Real>) -> (v: Vec<Real>)
        requires
            self.wf(),
            x@.len() >= 2,
        ensures
            v@ == self.rotated(x@),
    {
        let q = Real { bits: ROOT_HALF };
        let a = self.product_of(q, x[0]);
        let b = self.product_of(q, x[1]);
        let mut v: Vec<Real> = Vec::new();
        v.push(self.sum_of(a, b));
        v.push(self.difference_of(a, b));
        let mut k: usize = 2;
        assert(v@ =~= self.rotated(x@).take(2));
        while k < x.len()
            invariant
                2 <= k <= x@.len(),
                v@ == self.rotated(x@).take(k as int),
            decreases x@.len() - k,
        {
            v.push(x[k]);
            k = k + 1;
            assert(v@ =~= self.rotated(x@).take(k as int));
        }
        assert(v@ =~= self.rotated(x@));
        v
    }

    pub open spec fn rotated_second_order(&self, x: Seq<Real>, tolerance: Real) -> Verdict {
        let v = self.rotated(x);
        if !v[0].finite() || !v[1].finite() {
            Verdict::Unknown
        } else {
            match self.second_order(v, tolerance) {
                Verdict::Outside(w) => self.tested(self.rotated(w), x, tolerance),
                other => other,
            }
        }
    }

    fn classify_rotated(&self, x: &Vec<Real>, tolerance: Real) -> (m: Membership)
        requires
            self.wf(),
            x@.len() >= 2,
        ensures
            m@ == self.rotated_second_order(x@, tolerance),
    {
        let v = self.rotate(x);
        if !v[0].is_finite() || !v[1].is_finite() {
            return Membership::Unknown;
        }
        match self.classify_second_order(&v, tolerance) {
            Membership::Outside(w) => {
                let r = self.rotate(&w);
                self.separate(r, x, tolerance)
            },
            other => other,
        }
    }

    /// The exponential cone: `y exp(x / y) <= z` with `y` positive, and its limits.
    pub open spec fn exponential<L: Fn(Real) -> Real, E: Fn(Real) -> Real>(
        &self,
        growth: Growth<L, E>,
        x: Seq<Real>,
        tolerance: Real,
    ) -> Verdict {
        let (a, b, c) = (x[0], x[1], x[2]);
        let ratio = self.quotient(a, b);
        if b.lt(zero()) {
            self.tested(unit(3, 1, one()), x, tolerance)
        } else if c.lt(zero()) {
            self.tested(unit(3, 2, one()), x, tolerance)
        } else if b.zero() && a.le(zero()) {
            Verdict::Inside
        } else if zero().lt(b) && zero().lt(c) && ratio.le(
            self.difference(growth.log(c), growth.log(b)),
        ) {
            Verdict::Inside
        } else {
            self.tested(self.exponential_candidate(growth, a, b, c), x, tolerance)
        }
    }

    /// A supporting vector of the exponential cone, scaled to stay finite.
    pub open spec fn exponential_candidate<L: Fn(Real) -> Real, E: Fn(Real) -> Real>(
        &self,
        growth: Growth<L, E>,
        a: Real,
        b: Real,
        c: Real,
    ) -> Seq<Real> {
        let r = if zero().lt(b) {
            clamped(
                self.quotient(a, b),
                Real { bits: SMALL_EXPONENT },
                Real { bits: LARGE_EXPONENT },
            )
        } else {
            self.sum(
                self.difference(
                    growth.log(c.larger(Real { bits: MIN_POSITIVE })),
                    growth.log(a),
                ),
                one(),
            ).larger(zero())
        };
        let step = self.difference(r, one());
        if zero().le(r) {
            seq![minus_one(), step, growth.power(r.opposite())]
        } else {
            let e = growth.power(r);
            seq![e.opposite(), self.product(e, step), one()]
        }
    }

    fn classify_exponential<L: Fn(Real) -> Real, E: Fn(Real) -> Real>(
        &self,
        growth: &Growth<L, E>,
        x: &Vec<Real>,
        tolerance: Real,
    ) -> (m: Membership)
        requires
            self.wf(),
            growth.wf(),
            x@.len() == 3,
        ensures
            m@ == self.exponential(*growth, x@, tolerance),
    {
        let (a, b, c): (Real, Real, Real) = (x[0], x[1], x[2]);
        if b.less(zero()) {
            return self.coordinate(x, 1, one(), tolerance);
        }
        if c.less(zero()) {
            return self.coordinate(x, 2, one(), tolerance);
        }
        if b.is_zero() && a.at_most(zero()) {
            return Membership::Inside;
        }
        let ratio = self.quotient_of(a, b);
        if zero().less(b) && zero().less(c) && ratio.at_most(
            self.difference_of((growth.ln)(c), (growth.ln)(b)),
        ) {
            return Membership::Inside;
        }
        let r = if zero().less(b) {
            let (low, high): (Real, Real) = (
                Real { bits: SMALL_EXPONENT },
                Real { bits: LARGE_EXPONENT },
            );
            if ratio.less(low) {
                low
            } else if high.less(ratio) {
                high
            } else {
                ratio
            }
        } else {
            let top = (growth.ln)(c.max(Real { bits: MIN_POSITIVE }));
            let gap = self.difference_of(top, (growth.ln)(a));
            self.sum_of(gap, one()).max(zero())
        };
        let step = self.difference_of(r, one());
        let mut w: Vec<Real> = Vec::new();
        if zero().at_most(r) {
            w.push(minus_one());
            w.push(step);
            w.push((growth.exp)(r.neg()));
        } else {
            let e = (growth.exp)(r);
            w.push(e.neg());
            w.push(self.product_of(e, step));
            w.push(one());
        }
        assert(w@ =~= self.exponential_candidate(*growth, a, b, c));
        self.separate(w, x, tolerance)
    }

    /// The power cone: `x^alpha y^(1 - alpha) >= |z|`.
    pub open spec fn power_cone<L: Fn(Real) -> Real, E: Fn(Real) -> Real>(
        &self,
        growth: Growth<L, E>,
        alpha: Real,
        x: Seq<Real>,
        tolerance: Real,
    ) -> Verdict {
        if x[0].lt(zero()) {
            self.tested(unit(3, 0, one()), x, tolerance)
        } else if x[1].lt(zero()) {
            self.tested(unit(3, 1, one()), x, tolerance)
        } else if x[2].zero() || growth.log(x[2].absolute()).le(
            self.weighted(alpha, growth.log(x[0]), growth.log(x[1])),
        ) {
            Verdict::Inside
        } else {
            self.tested(self.power_candidate(growth, alpha, x), x, tolerance)
        }
    }

    /// The weighted mean of two logarithms.
    pub open spec fn weighted(&self, alpha: Real, a: Real, b: Real) -> Real {
        self.sum(self.product(alpha, a), self.product(self.difference(one(), alpha), b))
    }

    /// The logarithms of the first two entries, moved onto the boundary where
    /// an entry is zero.
    pub open spec fn boundary(&self, alpha: Real, lx: Real, ly: Real, logz: Real) -> (Real, Real) {
        let rest = self.difference(one(), alpha);
        let below = self.difference(logz, one());
        if !lx.finite() && !ly.finite() {
            (below, below)
        } else if !lx.finite() {
            (self.quotient(self.difference(below, self.product(rest, ly)), alpha), ly)
        } else if !ly.finite() {
            (lx, self.quotient(self.difference(below, self.product(alpha, lx)), rest))
        } else {
            (lx, ly)
        }
    }

    /// A supporting vector of the power cone, scaled to stay finite.
    pub open spec fn power_candidate<L: Fn(Real) -> Real, E: Fn(Real) -> Real>(
        &self,
        growth: Growth<L, E>,
        alpha: Real,
        x: Seq<Real>,
    ) -> Seq<Real> {
        let rest = self.difference(one(), alpha);
        let logz = growth.log(x[2].absolute());
        let (lx, ly) = self.boundary(alpha, growth.log(x[0]), growth.log(x[1]), logz);
        let mean = self.weighted(alpha, lx, ly);
        let w0 = self.difference(self.sum(growth.log(alpha), mean), lx);
        let w1 = self.difference(self.sum(growth.log(rest), mean), ly);
        let scale = w0.larger(w1).larger(zero());
        seq![
            growth.power(self.difference(w0, scale)),
            growth.power(self.difference(w1, scale)),
            self.product(x[2].unit().opposite(), growth.power(scale.opposite())),
        ]
    }

    fn mean_of(&self, alpha: Real, a: Real, b: Real) -> (r: Real)
        requires
            self.wf(),
        ensures
            r == self.weighted(alpha, a, b),
    {
        let rest = self.difference_of(one(), alpha);
        self.sum_of(self.product_of(alpha, a), self.product_of(rest, b))
    }

    fn boundary_of(&self, alpha: Real, lx: Real, ly: Real, logz: Real) -> (r: (Real, Real))
        requires
            self.wf(),
        ensures
            r == self.boundary(alpha, lx, ly, logz),
    {
        let rest = self.difference_of(one(), alpha);
        let below = self.difference_of(logz, one());
        if !lx.is_finite() && !ly.is_finite() {
            (below, below)
        } else if !lx.is_finite() {
            let top = self.difference_of(below, self.product_of(rest, ly));
            (self.quotient_of(top, alpha), ly)
        } else if !ly.is_finite() {
            let top = self.difference_of(below, self.product_of(alpha, lx));
            (lx, self.quotient_of(top, rest))
        } else {
            (lx, ly)
        }
    }

    fn classify_power<L: Fn(Real) -> Real, E: Fn(Real) -> Real>(
        &self,
        growth: &Growth<L, E>,
        alpha: Real,
        x: &Vec<Real>,
        tolerance: Real,
    ) -> (m: Membership)
        requires
            self.wf(),
            growth.wf(),
            x@.len() == 3,
        ensures
            m@ == self.power_cone(*growth, alpha, x@, tolerance),
    {
        if x[0].less(zero()) {
            return self.coordinate(x, 0, one(), tolerance);
        }
        if x[1].less(zero()) {
            return self.coordinate(x, 1, one(), tolerance);
        }
        if x[2].is_zero() {
            return Membership::Inside;
        }
        let logz = (growth.ln)(x[2].abs());
        let (lx, ly): (Real, Real) = ((growth.ln)(x[0]), (growth.ln)(x[1]));
        if logz.at_most(self.mean_of(alpha, lx, ly)) {
            return Membership::Inside;
        }
        let rest = self.difference_of(one(), alpha);
        let (bx, by): (Real, Real) = self.boundary_of(alpha, lx, ly, logz);
        let mean = self.mean_of(alpha, bx, by);
        let w0 = self.difference_of(self.sum_of((growth.ln)(alpha), mean), bx);
        let w1 = self.difference_of(self.sum_of((growth.ln)(rest), mean), by);
        let scale = w0.max(w1).max(zero());
        let mut w: Vec<Real> = Vec::new();
        w.push((growth.exp)(self.difference_of(w0, scale)));
        w.push((growth.exp)(self.difference_of(w1, scale)));
        w.push(self.product_of(x[2].signum().neg(), (growth.exp)(scale.neg())));
        assert(w@ =~= self.power_candidate(*growth, alpha, x@));
        self.separate(w, x, tolerance)
    }

    /// Where a point lies in relation to a cone.
    pub open spec fn classified<L: Fn(Real) -> Real, E: Fn(Real) -> Real>(
        &self,
        growth: Growth<L, E>,
        cone: Cone,
        x: Seq<Real>,
        tolerance: Real,
    ) -> Verdict {
        match cone {
            Cone::Opaque { .. } => Verdict::Unknown,
            Cone::Zero(_) => {
                let i = first_place(x, 0, |v: Real| !v.zero());
                if i < x.len() {
                    self.tested(
                        unit(x.len(), i as int, x[i as int].unit().opposite()),
                        x,
                        tolerance,
                    )
                } else {
                    Verdict::Inside
                }
            },
            Cone::Nonnegative(_) => {
                let i = first_place(x, 0, |v: Real| v.lt(zero()));
                if i < x.len() {
                    self.tested(unit(x.len(), i as int, one()), x, tolerance)
                } else {
                    Verdict::Inside
                }
            },
            Cone::SecondOrder(_) => self.second_order(x, tolerance),
            Cone::RotatedSecondOrder(_) => self.rotated_second_order(x, tolerance),
            Cone::PositiveSemidefinite { order } => self.definite_from(
                x,
                order as nat,
                0,
                1,
                tolerance,
            ),
            Cone::Exponential => self.exponential(growth, x, tolerance),
            Cone::Power { alpha } => self.power_cone(growth, alpha, x, tolerance),
        }
    }

    /// Classify a point of the dimension of a cone. Outside, the vector has a
    /// negative inner product with the point beyond rounding.
    pub fn classify<L: Fn(Real) -> Real, E: Fn(Real) -> Real>(
        &self,
        growth: &Growth<L, E>,
        cone: Cone,
        x: &Vec<Real>,
        tolerance: Real,
    ) -> (m: Membership)
        requires
            self.wf(),
            growth.wf(),
            x@.len() == cone.size(),
            cone is SecondOrder ==> x@.len() >= 1,
            cone is RotatedSecondOrder ==> x@.len() >= 2,
        ensures
            m@ == self.classified(*growth, cone, x@, tolerance),
    {
        match cone {
            Cone::Opaque { .. } => Membership::Unknown,
            Cone::Zero(_) => {
                let ghost test = |v: Real| !v.zero();
                let mut k: usize = 0;
                while k < x.len()
                    invariant
                        k <= x@.len(),
                        self.wf(),
                        cone is Zero,
                        test == (|v: Real| !v.zero()),
                        first_place(x@, 0, test) == first_place(x@, k as nat, test),
                    decreases x@.len() - k,
                {
                    if !x[k].is_zero() {
                        assert(test(x@[k as int]));
                        return self.coordinate(x, k, x[k].signum().neg(), tolerance);
                    }
                    assert(!test(x@[k as int]));
                    k = k + 1;
                }
                Membership::Inside
            },
            Cone::Nonnegative(_) => {
                let ghost test = |v: Real| v.lt(zero());
                let mut k: usize = 0;
                while k < x.len()
                    invariant
                        k <= x@.len(),
                        self.wf(),
                        cone is Nonnegative,
                        test == (|v: Real| v.lt(zero())),
                        first_place(x@, 0, test) == first_place(x@, k as nat, test),
                    decreases x@.len() - k,
                {
                    if x[k].less(zero()) {
                        assert(test(x@[k as int]));
                        return self.coordinate(x, k, one(), tolerance);
                    }
                    assert(!test(x@[k as int]));
                    k = k + 1;
                }
                Membership::Inside
            },
            Cone::SecondOrder(_) => self.classify_second_order(x, tolerance),
            Cone::RotatedSecondOrder(_) => self.classify_rotated(x, tolerance),
            Cone::PositiveSemidefinite { order } => self.classify_definite(x, order, tolerance),
            Cone::Exponential => self.classify_exponential(growth, x, tolerance),
            Cone::Power { alpha } => self.classify_power(growth, alpha, x, tolerance),
        }
    }

    /// Whatever the cone, a point is called outside only with a vector whose
    /// inner product with it is negative beyond rounding.
    pub proof fn outside_points_are_separated<L: Fn(Real) -> Real, E: Fn(Real) -> Real>(
        &self,
        growth: Growth<L, E>,
        cone: Cone,
        x: Seq<Real>,
        tolerance: Real,
    )
        ensures
            self.classified(growth, cone, x, tolerance) matches Verdict::Outside(w)
                ==> self.separates(w, x, tolerance),
    {
        if let Cone::PositiveSemidefinite { order } = cone {
            self.definite_verdict_separates(x, order as nat, 0, 1, tolerance);
        }
    }
}

} // verus!
