//! Row activity bounds.

use crate::arithmetic::Arithmetic;
use crate::bounds::{Bounds, Side};
use crate::linked::Entries;
use crate::number::{zero, Real};
use vstd::prelude::*;

verus! {

/// The bit pattern of thirty-two units of relative rounding.
pub const CANCELLATION: u64 = 0x3d00000000000000;

/// One end of the range of a row.
#[derive(Clone, Copy, Debug, PartialEq, Eq, Structural)]
pub struct Extreme {
    /// Sum of finite terms, kept even when another term is infinite.
    pub sum: Real,
    pub infinite: usize,
}

impl Extreme {
    /// The extreme, where it is finite.
    pub open spec fn finite_value(self) -> Option<Real> {
        if self.infinite == 0 && self.sum.finite() {
            Some(self.sum)
        } else {
            None
        }
    }

    pub fn value(self) -> (r: Option<Real>)
        ensures
            r == self.finite_value(),
    {
        if self.infinite == 0 && self.sum.is_finite() {
            Some(self.sum)
        } else {
            None
        }
    }
}

/// Both ends of the range of a row.
#[derive(Clone, Copy, Debug, PartialEq, Eq, Structural)]
pub struct Activity {
    pub min: Extreme,
    pub max: Extreme,
}

impl Activity {
    /// An activity that yields no finite extreme.
    pub open spec fn without_value() -> Activity {
        Activity {
            min: Extreme { sum: zero(), infinite: 1 },
            max: Extreme { sum: zero(), infinite: 1 },
        }
    }

    pub fn unknown() -> (r: Activity)
        ensures
            r == Activity::without_value(),
            r.min.finite_value() is None,
            r.max.finite_value() is None,
    {
        Activity {
            min: Extreme { sum: zero(), infinite: 1 },
            max: Extreme { sum: zero(), infinite: 1 },
        }
    }

    pub open spec fn end(self, high: bool) -> Extreme {
        if high {
            self.max
        } else {
            self.min
        }
    }
}

impl<
    P: Fn(Real, Real) -> Real,
    T: Fn(Real, Real) -> Real,
    D: Fn(Real, Real) -> Real,
    H: Fn(Real, Real) -> Real,
> Arithmetic<P, T, D, H> {
    /// The least, or the greatest, value of one term over an interval.
    pub open spec fn term(&self, a: Real, b: Bounds, high: bool) -> Real {
        if zero().lt(a) == high {
            self.product(a, b.upper)
        } else {
            self.product(a, b.lower)
        }
    }

    pub fn term_of(&self, a: Real, b: Bounds, high: bool) -> (r: Real)
        requires
            self.wf(),
        ensures
            r == self.term(a, b, high),
    {
        if zero().less(a) == high {
            self.product_of(a, b.upper)
        } else {
            self.product_of(a, b.lower)
        }
    }

    /// Finite terms summed from the left, and the number of infinite ones,
    /// leaving out one column.
    pub open spec fn gathered(
        &self,
        entries: Seq<(usize, Real)>,
        bounds: Seq<Bounds>,
        exclude: Option<usize>,
        high: bool,
    ) -> (Real, nat)
        decreases entries.len(),
    {
        if entries.len() == 0 {
            (zero(), 0)
        } else {
            let (sum, infinite) = self.gathered(entries.drop_last(), bounds, exclude, high);
            let (j, a) = entries.last();
            if exclude == Some(j) {
                (sum, infinite)
            } else {
                let term = self.term(a, bounds[j as int], high);
                if term.finite() {
                    (self.sum(sum, term), infinite)
                } else {
                    (self.sum(sum, zero()), infinite + 1)
                }
            }
        }
    }

    /// The activity of entries over intervals.
    pub open spec fn spans(
        &self,
        activity: Activity,
        entries: Seq<(usize, Real)>,
        bounds: Seq<Bounds>,
        exclude: Option<usize>,
    ) -> bool {
        let low = self.gathered(entries, bounds, exclude, false);
        let high = self.gathered(entries, bounds, exclude, true);
        &&& activity.min.sum == low.0 && activity.min.infinite == low.1
        &&& activity.max.sum == high.0 && activity.max.infinite == high.1
    }

    pub proof fn gathered_fits(
        &self,
        entries: Seq<(usize, Real)>,
        bounds: Seq<Bounds>,
        exclude: Option<usize>,
        high: bool,
    )
        ensures
            self.gathered(entries, bounds, exclude, high).1 <= entries.len(),
        decreases entries.len(),
    {
        if entries.len() > 0 {
            self.gathered_fits(entries.drop_last(), bounds, exclude, high);
        }
    }

    fn gather(
        &self,
        entries: &Entries,
        bounds: &Vec<Bounds>,
        exclude: Option<usize>,
        high: bool,
    ) -> (e: Extreme)
        requires
            self.wf(),
            forall|k: int| 0 <= k < entries@.len() ==> (#[trigger] entries@[k]).0 < bounds@.len(),
        ensures
            e.sum == self.gathered(entries@, bounds@, exclude, high).0,
            e.infinite == self.gathered(entries@, bounds@, exclude, high).1,
    {
        let mut e = Extreme { sum: zero(), infinite: 0 };
        let mut k: usize = 0;
        assert(entries@.take(0) =~= Seq::<(usize, Real)>::empty());
        while k < entries.len()
            invariant
                k <= entries@.len(),
                self.wf(),
                forall|k: int|
                    0 <= k < entries@.len() ==> (#[trigger] entries@[k]).0 < bounds@.len(),
                e.infinite <= k,
                e.sum == self.gathered(entries@.take(k as int), bounds@, exclude, high).0,
                e.infinite == self.gathered(entries@.take(k as int), bounds@, exclude, high).1,
            decreases entries@.len() - k,
        {
            let (j, a): (usize, Real) = entries[k];
            assert(entries@[k as int].0 < bounds@.len());
            assert(entries@.take(k + 1).drop_last() =~= entries@.take(k as int));
            let skip = match exclude {
                Some(e) => e == j,
                None => false,
            };
            if !skip {
                let term = self.term_of(a, bounds[j], high);
                if term.is_finite() {
                    e = Extreme { sum: self.sum_of(e.sum, term), infinite: e.infinite };
                } else {
                    e = Extreme { sum: self.sum_of(e.sum, zero()), infinite: e.infinite + 1 };
                }
            }
            k = k + 1;
        }
        assert(entries@.take(k as int) =~= entries@);
        e
    }

    /// The activity of entries over intervals, leaving out one column.
    pub fn activity_of(
        &self,
        entries: &Entries,
        bounds: &Vec<Bounds>,
        exclude: Option<usize>,
    ) -> (activity: Activity)
        requires
            self.wf(),
            forall|k: int| 0 <= k < entries@.len() ==> (#[trigger] entries@[k]).0 < bounds@.len(),
        ensures
            self.spans(activity, entries@, bounds@, exclude),
    {
        Activity {
            min: self.gather(entries, bounds, exclude, false),
            max: self.gather(entries, bounds, exclude, true),
        }
    }

    /// Too little is left of a sum after a term left or joined it.
    pub open spec fn cancelled(&self, rest: Real, term: Real) -> bool {
        !term.zero() && rest.absolute().lt(
            self.product(Real { bits: CANCELLATION }, term.absolute()),
        )
    }

    pub(crate) fn cancels(&self, rest: Real, term: Real) -> (b: bool)
        requires
            self.wf(),
        ensures
            b == self.cancelled(rest, term),
    {
        !term.is_zero() && rest.abs().less(
            self.product_of(Real { bits: CANCELLATION }, term.abs()),
        )
    }

    /// The extreme after a term left; none where the sum would be lost.
    pub open spec fn term_left(&self, e: Extreme, old_term: Real) -> (Extreme, bool) {
        if old_term.finite() {
            let sum = self.difference(e.sum, old_term);
            (Extreme { sum, infinite: e.infinite }, !self.cancelled(sum, old_term))
        } else {
            (Extreme { sum: e.sum, infinite: (e.infinite - 1) as usize }, true)
        }
    }

    /// The extreme after a term joined; none where the sum would be lost.
    pub open spec fn term_joined(&self, e: Extreme, new_term: Real) -> (Extreme, bool) {
        if new_term.finite() {
            let sum = self.sum(e.sum, new_term);
            (Extreme { sum, infinite: e.infinite }, !self.cancelled(sum, new_term))
        } else {
            (Extreme { sum: e.sum, infinite: (e.infinite + 1) as usize }, true)
        }
    }

    /// The extreme after one term changed, and whether it still holds: where
    /// rounding would lose the remaining sum, it must be computed anew.
    pub open spec fn replaced(&self, e: Extreme, old_term: Real, new_term: Real) -> (
        Extreme,
        bool,
    ) {
        if old_term.same(new_term) {
            (e, true)
        } else {
            let (first, good) = self.term_left(e, old_term);
            if !good {
                (first, false)
            } else {
                let (second, good) = self.term_joined(first, new_term);
                (second, good && second.sum.finite())
            }
        }
    }

    /// Update an extreme for one changed term.
    pub fn replace(&self, e: Extreme, old_term: Real, new_term: Real) -> (r: (Extreme, bool))
        requires
            self.wf(),
            !old_term.finite() && !old_term.same(new_term) ==> e.infinite > 0,
            old_term.finite() && !new_term.finite() ==> e.infinite < usize::MAX,
        ensures
            r == self.replaced(e, old_term, new_term),
    {
        if old_term.equals(new_term) {
            return (e, true);
        }
        let mut sum = e.sum;
        let mut infinite: usize = e.infinite;
        if old_term.is_finite() {
            sum = self.difference_of(sum, old_term);
            if self.cancels(sum, old_term) {
                return (Extreme { sum, infinite }, false);
            }
        } else {
            infinite = infinite - 1;
        }
        if new_term.is_finite() {
            sum = self.sum_of(sum, new_term);
            if self.cancels(sum, new_term) {
                return (Extreme { sum, infinite }, false);
            }
        } else {
            infinite = infinite + 1;
        }
        (Extreme { sum, infinite }, sum.is_finite())
    }

    /// The extreme of the other terms, where one term can be taken out of it.
    pub open spec fn excluded(&self, e: Extreme, term: Real) -> Option<Real> {
        if term.finite() {
            let residual = self.difference(e.sum, term);
            if e.infinite == 0 && residual.finite() && !self.cancelled(residual, term) {
                Some(residual)
            } else {
                None
            }
        } else if e.infinite == 1 && e.sum.finite() {
            Some(e.sum)
        } else {
            None
        }
    }

    pub fn excluding(&self, e: Extreme, term: Real) -> (r: Option<Real>)
        requires
            self.wf(),
        ensures
            r == self.excluded(e, term),
    {
        if term.is_finite() {
            let residual = self.difference_of(e.sum, term);
            if e.infinite == 0 && residual.is_finite() && !self.cancels(residual, term) {
                Some(residual)
            } else {
                None
            }
        } else if e.infinite == 1 && e.sum.is_finite() {
            Some(e.sum)
        } else {
            None
        }
    }

    /// The bound that one side of a row implies for the variable of a term:
    /// `(rhs - residual) / a`. Where rounding hides the residual, it is computed
    /// anew, but only when this term is the sole infinite one.
    pub open spec fn implied_by(
        &self,
        e: Extreme,
        term: Real,
        rhs: Real,
        a: Real,
        again: Option<Real>,
    ) -> Option<Real> {
        let residual = match self.excluded(e, term) {
            Some(v) => Some(v),
            None => if e.infinite == if term.finite() {
                0int
            } else {
                1int
            } {
                again
            } else {
                None
            },
        };
        match residual {
            Some(v) => Some(self.quotient(self.difference(rhs, v), a)),
            None => None,
        }
    }

    /// The value of one extreme of a row without one column.
    pub open spec fn residual_value(
        &self,
        entries: Seq<(usize, Real)>,
        bounds: Seq<Bounds>,
        column: usize,
        high: bool,
    ) -> Option<Real> {
        let (sum, infinite) = self.gathered(entries, bounds, Some(column), high);
        if infinite == 0 && sum.finite() {
            Some(sum)
        } else {
            None
        }
    }

    /// The bound that the lower, or the upper, side of a row implies for one of
    /// its variables, where that side is finite.
    pub open spec fn implied_from(
        &self,
        activity: Activity,
        entries: Seq<(usize, Real)>,
        bounds: Seq<Bounds>,
        column: usize,
        a: Real,
        rhs: Bounds,
        lower: bool,
    ) -> Option<Real> {
        let side = if lower {
            rhs.lower
        } else {
            rhs.upper
        };
        if !side.finite() {
            None
        } else {
            self.implied_by(
                activity.end(lower),
                self.term(a, bounds[column as int], lower),
                side,
                a,
                self.residual_value(entries, bounds, column, lower),
            )
        }
    }

    /// The bound that one side of a row implies for one of its variables.
    pub fn implied_from_side(
        &self,
        activity: Activity,
        entries: &Entries,
        bounds: &Vec<Bounds>,
        column: usize,
        a: Real,
        rhs: Bounds,
        lower: bool,
    ) -> (r: Option<Real>)
        requires
            self.wf(),
            column < bounds@.len(),
            forall|k: int| 0 <= k < entries@.len() ==> (#[trigger] entries@[k]).0 < bounds@.len(),
        ensures
            r == self.implied_from(activity, entries@, bounds@, column, a, rhs, lower),
    {
        let side = if lower {
            rhs.lower
        } else {
            rhs.upper
        };
        if !side.is_finite() {
            return None;
        }
        let e = if lower {
            activity.max
        } else {
            activity.min
        };
        let term = self.term_of(a, bounds[column], lower);
        let residual = match self.excluding(e, term) {
            Some(v) => Some(v),
            None => {
                let own: usize = if term.is_finite() {
                    0
                } else {
                    1
                };
                if e.infinite == own {
                    self.gather(entries, bounds, Some(column), lower).value()
                } else {
                    None
                }
            },
        };
        match residual {
            Some(v) => Some(self.quotient_of(self.difference_of(side, v), a)),
            None => None,
        }
    }

    /// Which side of a row bounds a variable on one side: a positive
    /// coefficient keeps the sides, a negative one flips them.
    pub open spec fn bounding_side(a: Real, side: Side) -> bool {
        (side is Lower) == zero().lt(a)
    }

    /// The bound that a row implies for one side of one of its variables.
    pub fn implied_side(
        &self,
        activity: Activity,
        entries: &Entries,
        bounds: &Vec<Bounds>,
        column: usize,
        a: Real,
        rhs: Bounds,
        side: Side,
    ) -> (r: Option<Real>)
        requires
            self.wf(),
            column < bounds@.len(),
            forall|k: int| 0 <= k < entries@.len() ==> (#[trigger] entries@[k]).0 < bounds@.len(),
        ensures
            r == self.implied_from(
                activity,
                entries@,
                bounds@,
                column,
                a,
                rhs,
                Self::bounding_side(a, side),
            ),
    {
        let lower = (side == Side::Lower) == zero().less(a);
        self.implied_from_side(activity, entries, bounds, column, a, rhs, lower)
    }

    /// The activity after the interval of one variable changed, and whether it
    /// still holds.
    pub open spec fn bound_replaced(
        &self,
        activity: Activity,
        a: Real,
        old_bounds: Bounds,
        new_bounds: Bounds,
    ) -> (Activity, bool) {
        let positive = zero().lt(a);
        if old_bounds.lower.same(new_bounds.lower) {
            let (e, good) = self.replaced(
                activity.end(positive),
                self.product(a, old_bounds.upper),
                self.product(a, new_bounds.upper),
            );
            (with_end(activity, positive, e), good)
        } else if old_bounds.upper.same(new_bounds.upper) {
            let (e, good) = self.replaced(
                activity.end(!positive),
                self.product(a, old_bounds.lower),
                self.product(a, new_bounds.lower),
            );
            (with_end(activity, !positive, e), good)
        } else {
            let (low, good) = self.replaced(
                activity.min,
                self.term(a, old_bounds, false),
                self.term(a, new_bounds, false),
            );
            if !good {
                (with_end(activity, false, low), false)
            } else {
                let (high, good) = self.replaced(
                    activity.max,
                    self.term(a, old_bounds, true),
                    self.term(a, new_bounds, true),
                );
                (Activity { min: low, max: high }, good)
            }
        }
    }

    /// The terms of the old interval are counted in the activity.
    pub open spec fn counts(&self, activity: Activity, a: Real, b: Bounds) -> bool {
        &&& !self.term(a, b, false).finite() ==> activity.min.infinite > 0
        &&& !self.term(a, b, true).finite() ==> activity.max.infinite > 0
        &&& self.term(a, b, false).finite() ==> activity.min.infinite < usize::MAX
        &&& self.term(a, b, true).finite() ==> activity.max.infinite < usize::MAX
    }

    pub fn replace_bound(
        &self,
        activity: Activity,
        a: Real,
        old_bounds: Bounds,
        new_bounds: Bounds,
    ) -> (r: (Activity, bool))
        requires
            self.wf(),
            self.counts(activity, a, old_bounds),
        ensures
            r == self.bound_replaced(activity, a, old_bounds, new_bounds),
    {
        let positive = zero().less(a);
        if old_bounds.lower.equals(new_bounds.lower) {
            let (x, y): (Real, Real) = (
                self.product_of(a, old_bounds.upper),
                self.product_of(a, new_bounds.upper),
            );
            if positive {
                let (e, good): (Extreme, bool) = self.replace(activity.max, x, y);
                (Activity { min: activity.min, max: e }, good)
            } else {
                let (e, good): (Extreme, bool) = self.replace(activity.min, x, y);
                (Activity { min: e, max: activity.max }, good)
            }
        } else if old_bounds.upper.equals(new_bounds.upper) {
            let (x, y): (Real, Real) = (
                self.product_of(a, old_bounds.lower),
                self.product_of(a, new_bounds.lower),
            );
            if positive {
                let (e, good): (Extreme, bool) = self.replace(activity.min, x, y);
                (Activity { min: e, max: activity.max }, good)
            } else {
                let (e, good): (Extreme, bool) = self.replace(activity.max, x, y);
                (Activity { min: activity.min, max: e }, good)
            }
        } else {
            let x = self.term_of(a, old_bounds, false);
            let y = self.term_of(a, new_bounds, false);
            let (low, good): (Extreme, bool) = self.replace(activity.min, x, y);
            if !good {
                return (Activity { min: low, max: activity.max }, false);
            }
            let x = self.term_of(a, old_bounds, true);
            let y = self.term_of(a, new_bounds, true);
            let (high, good): (Extreme, bool) = self.replace(activity.max, x, y);
            (Activity { min: low, max: high }, good)
        }
    }
}

pub open spec fn with_end(activity: Activity, high: bool, e: Extreme) -> Activity {
    if high {
        Activity { max: e, ..activity }
    } else {
        Activity { min: e, ..activity }
    }
}

} // verus!
