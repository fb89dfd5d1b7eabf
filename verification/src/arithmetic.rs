//! Arithmetic on reals, supplied by the caller.
//!
//! The operations are closures: rounding belongs to the machine that runs them.
//! All that is asked of an operation is that it is a function of its arguments,
//! and everything computed with it is stated in terms of that function.

use crate::linked::Entries;
use crate::number::{minus_one, one, zero, Real, SIGN};
use vstd::prelude::*;

verus! {

/// The value of an operation.
pub open spec fn value<F: Fn(Real, Real) -> Real>(f: F, a: Real, b: Real) -> Real {
    choose|r: Real| call_ensures(f, (a, b), r)
}

/// The operation accepts any arguments and depends on nothing else.
pub open spec fn functional<F: Fn(Real, Real) -> Real>(f: F) -> bool {
    &&& forall|a: Real, b: Real| #[trigger] call_requires(f, (a, b))
    &&& forall|a: Real, b: Real, r: Real| #[trigger]
        call_ensures(f, (a, b), r) ==> r == value(f, a, b)
}

/// Sum, product, quotient and the length of a pair.
pub struct Arithmetic<P, T, D, H> {
    pub plus: P,
    pub times: T,
    pub over: D,
    pub hypot: H,
}

impl<
    P: Fn(Real, Real) -> Real,
    T: Fn(Real, Real) -> Real,
    D: Fn(Real, Real) -> Real,
    H: Fn(Real, Real) -> Real,
> Arithmetic<P, T, D, H> {
    pub open spec fn wf(&self) -> bool {
        &&& functional(self.plus)
        &&& functional(self.times)
        &&& functional(self.over)
        &&& functional(self.hypot)
    }

    pub open spec fn sum(&self, a: Real, b: Real) -> Real {
        value(self.plus, a, b)
    }

    pub open spec fn difference(&self, a: Real, b: Real) -> Real {
        value(self.plus, a, b.opposite())
    }

    pub open spec fn product(&self, a: Real, b: Real) -> Real {
        value(self.times, a, b)
    }

    pub open spec fn quotient(&self, a: Real, b: Real) -> Real {
        value(self.over, a, b)
    }

    pub open spec fn length(&self, a: Real, b: Real) -> Real {
        value(self.hypot, a, b)
    }

    pub fn sum_of(&self, a: Real, b: Real) -> (r: Real)
        requires
            self.wf(),
        ensures
            r == self.sum(a, b),
    {
        (self.plus)(a, b)
    }

    /// Subtraction is addition of the opposite.
    pub fn difference_of(&self, a: Real, b: Real) -> (r: Real)
        requires
            self.wf(),
        ensures
            r == self.difference(a, b),
    {
        (self.plus)(a, b.neg())
    }

    pub fn product_of(&self, a: Real, b: Real) -> (r: Real)
        requires
            self.wf(),
        ensures
            r == self.product(a, b),
    {
        (self.times)(a, b)
    }

    pub fn quotient_of(&self, a: Real, b: Real) -> (r: Real)
        requires
            self.wf(),
        ensures
            r == self.quotient(a, b),
    {
        (self.over)(a, b)
    }

    pub fn length_of(&self, a: Real, b: Real) -> (r: Real)
        requires
            self.wf(),
        ensures
            r == self.length(a, b),
    {
        (self.hypot)(a, b)
    }

    /// The sum of coefficient times value over entries, from the left, leaving
    /// out one index.
    pub open spec fn dot(
        &self,
        entries: Seq<(usize, Real)>,
        x: Seq<Real>,
        exclude: Option<usize>,
    ) -> Real
        decreases entries.len(),
    {
        if entries.len() == 0 {
            zero()
        } else {
            let before = self.dot(entries.drop_last(), x, exclude);
            let (j, a) = entries.last();
            if exclude == Some(j) {
                before
            } else {
                self.sum(before, self.product(a, x[j as int]))
            }
        }
    }

    pub fn dot_of(&self, entries: &Entries, x: &Vec<Real>, exclude: Option<usize>) -> (r: Real)
        requires
            self.wf(),
            forall|k: int| 0 <= k < entries@.len() ==> (#[trigger] entries@[k]).0 < x@.len(),
        ensures
            r == self.dot(entries@, x@, exclude),
    {
        let mut total = zero();
        let mut k: usize = 0;
        assert(entries@.take(0) =~= Seq::<(usize, Real)>::empty());
        while k < entries.len()
            invariant
                k <= entries@.len(),
                self.wf(),
                forall|k: int| 0 <= k < entries@.len() ==> (#[trigger] entries@[k]).0 < x@.len(),
                total == self.dot(entries@.take(k as int), x@, exclude),
            decreases entries@.len() - k,
        {
            let (j, a): (usize, Real) = entries[k];
            assert(entries@[k as int].0 < x@.len());
            assert(entries@.take(k + 1).drop_last() =~= entries@.take(k as int));
            let skip = match exclude {
                Some(e) => e == j,
                None => false,
            };
            if !skip {
                let term = self.product_of(a, x[j]);
                total = self.sum_of(total, term);
            }
            k = k + 1;
        }
        assert(entries@.take(k as int) =~= entries@);
        total
    }
}

impl Real {
    /// The larger of two values; a value that is not a number gives way.
    pub open spec fn larger(self, other: Real) -> Real {
        if self.nan() {
            other
        } else if other.nan() {
            self
        } else if self.lt(other) {
            other
        } else {
            self
        }
    }

    /// The smaller of two values; a value that is not a number gives way.
    pub open spec fn smaller(self, other: Real) -> Real {
        if self.nan() {
            other
        } else if other.nan() {
            self
        } else if other.lt(self) {
            other
        } else {
            self
        }
    }

    pub fn max(self, other: Real) -> (r: Real)
        ensures
            r == self.larger(other),
    {
        if self.is_nan() {
            other
        } else if other.is_nan() {
            self
        } else if self.less(other) {
            other
        } else {
            self
        }
    }

    pub fn min(self, other: Real) -> (r: Real)
        ensures
            r == self.smaller(other),
    {
        if self.is_nan() {
            other
        } else if other.is_nan() {
            self
        } else if other.less(self) {
            other
        } else {
            self
        }
    }

    /// One with the sign of a number; what is not a number stays.
    pub open spec fn unit(self) -> Real {
        if self.nan() {
            self
        } else if self.negative_sign() {
            minus_one()
        } else {
            one()
        }
    }

    pub fn signum(self) -> (r: Real)
        ensures
            r == self.unit(),
    {
        if self.is_nan() {
            self
        } else if self.bits >= SIGN {
            minus_one()
        } else {
            one()
        }
    }
}

/// The larger and the smaller of two numbers are the two numbers, in order.
pub proof fn extremes_are_ordered(a: Real, b: Real)
    requires
        !a.nan(),
        !b.nan(),
    ensures
        a.smaller(b).le(a),
        a.smaller(b).le(b),
        a.le(a.larger(b)),
        b.le(a.larger(b)),
        a.smaller(b) == a || a.smaller(b) == b,
        a.larger(b) == a || a.larger(b) == b,
{
}

} // verus!
