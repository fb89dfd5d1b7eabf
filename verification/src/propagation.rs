//! Propagation through a row keeps the points of the row.

use crate::arithmetic::Arithmetic;
use crate::bounding::{self, BoundLimits, Narrowed, RowOutcome};
use crate::bounds::{Bounds, RowDomain, Side};
use crate::exact;
use crate::linked;
use crate::listing;
use crate::model::Model;
use crate::number::{infinity, minus_one, neg_infinity, one, zero, Real};
use vstd::prelude::*;

verus! {

/// The activity of entries at a point, leaving out one column.
pub open spec fn partial(
    entries: Seq<(usize, Real)>,
    x: spec_fn(int) -> real,
    exclude: Option<usize>,
) -> real
    decreases entries.len(),
{
    if entries.len() == 0 {
        0 as real
    } else {
        let (j, a) = entries.last();
        partial(entries.drop_last(), x, exclude) + (if exclude == Some(j) {
            0 as real
        } else {
            exact::number(a) * x(j as int)
        })
    }
}

/// Every variable of a list of entries lies within its interval.
pub open spec fn inside(bounds: Seq<Bounds>, x: spec_fn(int) -> real) -> bool {
    forall|j: int| 0 <= j < bounds.len() ==> exact::admits(#[trigger] bounds[j], x(j))
}

/// The entries of a row: columns that there are, in order, with finite coefficients.
pub open spec fn is_row(entries: Seq<(usize, Real)>, columns: nat) -> bool {
    &&& entries.len() <= usize::MAX
    &&& forall|k: int|
        0 <= k < entries.len() ==> (#[trigger] entries[k]).0 < columns && entries[k].1.finite()
    &&& forall|a: int, b: int|
        0 <= a < b < entries.len() ==> (#[trigger] entries[a]).0 < (#[trigger] entries[b]).0
}

proof fn whole_is_partial(entries: Seq<(usize, Real)>, x: spec_fn(int) -> real)
    ensures
        partial(entries, x, None) == exact::activity_at(entries, x),
    decreases entries.len(),
{
    if entries.len() > 0 {
        whole_is_partial(entries.drop_last(), x);
    }
}

proof fn missing_column(entries: Seq<(usize, Real)>, x: spec_fn(int) -> real, j: usize)
    requires
        forall|k: int| 0 <= k < entries.len() ==> (#[trigger] entries[k]).0 != j,
    ensures
        partial(entries, x, Some(j)) == partial(entries, x, None),
    decreases entries.len(),
{
    if entries.len() > 0 {
        assert(entries[entries.len() - 1].0 != j);
        assert forall|k: int| 0 <= k < entries.drop_last().len() implies (
        #[trigger] entries.drop_last()[k]).0 != j by {
            assert(entries[k].0 != j);
        }
        missing_column(entries.drop_last(), x, j);
    }
}

proof fn one_column(entries: Seq<(usize, Real)>, x: spec_fn(int) -> real, at: int)
    requires
        0 <= at < entries.len(),
        forall|a: int, b: int|
            0 <= a < b < entries.len() ==> (#[trigger] entries[a]).0 < (#[trigger] entries[b]).0,
    ensures
        partial(entries, x, None) == partial(entries, x, Some(entries[at].0)) + exact::number(
            entries[at].1,
        ) * x(entries[at].0 as int),
    decreases entries.len(),
{
    let j = entries[at].0;
    let less = entries.drop_last();
    let n = entries.len() - 1;
    assert forall|a: int, b: int| 0 <= a < b < less.len() implies (#[trigger] less[a]).0 < (
    #[trigger] less[b]).0 by {
        assert(entries[a].0 < entries[b].0);
    }
    if at == n {
        assert forall|k: int| 0 <= k < less.len() implies (#[trigger] less[k]).0 != j by {
            assert(entries[k].0 < entries[n].0);
        }
        missing_column(less, x, j);
    } else {
        assert(entries[at].0 < entries[n].0);
        assert(less[at] == entries[at]);
        one_column(less, x, at);
    }
}

impl<
    P: Fn(Real, Real) -> Real,
    T: Fn(Real, Real) -> Real,
    D: Fn(Real, Real) -> Real,
    H: Fn(Real, Real) -> Real,
> Arithmetic<P, T, D, H> {
    /// The finite terms of an extreme, added up.
    spec fn reach(
        &self,
        entries: Seq<(usize, Real)>,
        bounds: Seq<Bounds>,
        exclude: Option<usize>,
        high: bool,
    ) -> real
        decreases entries.len(),
    {
        if entries.len() == 0 {
            0 as real
        } else {
            let (j, a) = entries.last();
            let term = self.term(a, bounds[j as int], high);
            self.reach(entries.drop_last(), bounds, exclude, high) + (if exclude == Some(j)
                || !term.finite() {
                0 as real
            } else {
                exact::number(term)
            })
        }
    }

    proof fn gathered_is_reach(
        &self,
        entries: Seq<(usize, Real)>,
        bounds: Seq<Bounds>,
        exclude: Option<usize>,
        high: bool,
    )
        requires
            self.exact(),
            self.gathered(entries, bounds, exclude, high).0.finite(),
        ensures
            exact::number(self.gathered(entries, bounds, exclude, high).0) == self.reach(
                entries,
                bounds,
                exclude,
                high,
            ),
        decreases entries.len(),
    {
        exact::numbers_are_ordered(zero(), zero());
        if entries.len() > 0 {
            let (j, a) = entries.last();
            let sum = self.gathered(entries.drop_last(), bounds, exclude, high).0;
            let term = self.term(a, bounds[j as int], high);
            assert(exact::is_sum(sum, term, self.sum(sum, term)));
            assert(exact::is_sum(sum, zero(), self.sum(sum, zero())));
            self.gathered_is_reach(entries.drop_last(), bounds, exclude, high);
        }
    }

    proof fn missing_reach(
        &self,
        entries: Seq<(usize, Real)>,
        bounds: Seq<Bounds>,
        j: usize,
        high: bool,
    )
        requires
            forall|k: int| 0 <= k < entries.len() ==> (#[trigger] entries[k]).0 != j,
        ensures
            self.reach(entries, bounds, Some(j), high) == self.reach(entries, bounds, None, high),
            self.gathered(entries, bounds, Some(j), high).1 == self.gathered(
                entries,
                bounds,
                None,
                high,
            ).1,
        decreases entries.len(),
    {
        if entries.len() > 0 {
            assert(entries[entries.len() - 1].0 != j);
            assert forall|k: int| 0 <= k < entries.drop_last().len() implies (
            #[trigger] entries.drop_last()[k]).0 != j by {
                assert(entries[k].0 != j);
            }
            self.missing_reach(entries.drop_last(), bounds, j, high);
        }
    }

    proof fn one_reach(
        &self,
        entries: Seq<(usize, Real)>,
        bounds: Seq<Bounds>,
        at: int,
        high: bool,
    )
        requires
            0 <= at < entries.len(),
            forall|a: int, b: int|
                0 <= a < b < entries.len() ==> (#[trigger] entries[a]).0 < (
                #[trigger] entries[b]).0,
        ensures
            ({
                let (j, a) = entries[at];
                let term = self.term(a, bounds[j as int], high);
                &&& self.reach(entries, bounds, None, high) == self.reach(
                    entries,
                    bounds,
                    Some(j),
                    high,
                ) + (if term.finite() {
                    exact::number(term)
                } else {
                    0 as real
                })
                &&& self.gathered(entries, bounds, None, high).1 == self.gathered(
                    entries,
                    bounds,
                    Some(j),
                    high,
                ).1 + (if term.finite() {
                    0nat
                } else {
                    1
                })
            }),
        decreases entries.len(),
    {
        let j = entries[at].0;
        let less = entries.drop_last();
        let n = entries.len() - 1;
        assert forall|a: int, b: int| 0 <= a < b < less.len() implies (#[trigger] less[a]).0 < (
        #[trigger] less[b]).0 by {
            assert(entries[a].0 < entries[b].0);
        }
        if at == n {
            assert forall|k: int| 0 <= k < less.len() implies (#[trigger] less[k]).0 != j by {
                assert(entries[k].0 < entries[n].0);
            }
            self.missing_reach(less, bounds, j, high);
        } else {
            assert(entries[at].0 < entries[n].0);
            assert(less[at] == entries[at]);
            self.one_reach(less, bounds, at, high);
        }
    }

    /// No term is above its greatest value, nor below its least.
    proof fn terms_bound(&self, a: Real, b: Bounds, high: bool, t: real)
        requires
            self.exact(),
            a.finite(),
            exact::admits(b, t),
            self.term(a, b, high).finite(),
        ensures
            high ==> exact::number(a) * t <= exact::number(self.term(a, b, high)),
            !high ==> exact::number(self.term(a, b, high)) <= exact::number(a) * t,
    {
        exact::numbers_are_ordered(a, a);
        assert(exact::is_product(a, b.upper, self.product(a, b.upper)));
        assert(exact::is_product(a, b.lower, self.product(a, b.lower)));
        let (r, l, u) = (exact::number(a), exact::number(b.lower), exact::number(b.upper));
        assert(r > 0 as real && t <= u ==> r * t <= r * u) by (nonlinear_arith);
        assert(r > 0 as real && l <= t ==> r * l <= r * t) by (nonlinear_arith);
        assert(r <= 0 as real && t <= u ==> r * u <= r * t) by (nonlinear_arith);
        assert(r <= 0 as real && l <= t ==> r * t <= r * l) by (nonlinear_arith);
    }

    /// Where every term is finite, the activity of a point lies between the extremes.
    proof fn reach_bounds(
        &self,
        entries: Seq<(usize, Real)>,
        bounds: Seq<Bounds>,
        exclude: Option<usize>,
        high: bool,
        x: spec_fn(int) -> real,
    )
        requires
            self.exact(),
            inside(bounds, x),
            forall|k: int|
                0 <= k < entries.len() ==> (#[trigger] entries[k]).0 < bounds.len()
                    && entries[k].1.finite(),
            self.gathered(entries, bounds, exclude, high).1 == 0,
        ensures
            high ==> partial(entries, x, exclude) <= self.reach(entries, bounds, exclude, high),
            !high ==> self.reach(entries, bounds, exclude, high) <= partial(entries, x, exclude),
        decreases entries.len(),
    {
        if entries.len() > 0 {
            let less = entries.drop_last();
            let (j, a) = entries.last();
            assert(entries[entries.len() - 1].0 < bounds.len());
            assert forall|k: int| 0 <= k < less.len() implies (#[trigger] less[k]).0 < bounds.len()
                && less[k].1.finite() by {
                assert(entries[k].0 < bounds.len());
            }
            self.reach_bounds(less, bounds, exclude, high, x);
            if exclude != Some(j) {
                assert(exact::admits(bounds[j as int], x(j as int)));
                self.terms_bound(a, bounds[j as int], high, x(j as int));
            }
        }
    }

    /// The extremes of a row bound its activity.
    proof fn spans_bound(
        &self,
        entries: Seq<(usize, Real)>,
        bounds: Seq<Bounds>,
        x: spec_fn(int) -> real,
    )
        requires
            self.exact(),
            inside(bounds, x),
            is_row(entries, bounds.len()),
        ensures
            self.span(entries, bounds).max.finite_value() matches Some(v) ==> exact::activity_at(
                entries,
                x,
            ) <= exact::number(v),
            self.span(entries, bounds).min.finite_value() matches Some(v) ==> exact::number(v)
                <= exact::activity_at(entries, x),
    {
        whole_is_partial(entries, x);
        let s = self.span(entries, bounds);
        self.gathered_fits(entries, bounds, None, true);
        self.gathered_fits(entries, bounds, None, false);
        if s.max.finite_value() is Some {
            self.gathered_is_reach(entries, bounds, None, true);
            self.reach_bounds(entries, bounds, None, true, x);
        }
        if s.min.finite_value() is Some {
            self.gathered_is_reach(entries, bounds, None, false);
            self.reach_bounds(entries, bounds, None, false, x);
        }
    }

    /// A bound that a side of a row implies holds of every point of the row: on the
    /// side of the row for a positive coefficient, on the other for a negative one.
    pub proof fn implied_bounds_hold(
        &self,
        entries: Seq<(usize, Real)>,
        bounds: Seq<Bounds>,
        at: int,
        rhs: Bounds,
        lower: bool,
        x: spec_fn(int) -> real,
    )
        requires
            self.exact(),
            inside(bounds, x),
            is_row(entries, bounds.len()),
            exact::admits(rhs, exact::activity_at(entries, x)),
            0 <= at < entries.len(),
        ensures
            self.implied_from(
                self.span(entries, bounds),
                entries,
                bounds,
                entries[at].0,
                entries[at].1,
                rhs,
                lower,
            ) matches Some(v) ==> v.finite() ==> {
                let t = x(entries[at].0 as int);
                if lower == (exact::number(entries[at].1) > 0 as real) {
                    exact::number(v) <= t
                } else {
                    t <= exact::number(v)
                }
            },
    {
        let (j, a) = entries[at];
        let s = self.span(entries, bounds);
        let e = s.end(lower);
        let term = self.term(a, bounds[j as int], lower);
        let side = if lower {
            rhs.lower
        } else {
            rhs.upper
        };
        whole_is_partial(entries, x);
        one_column(entries, x, at);
        self.one_reach(entries, bounds, at, lower);
        self.gathered_fits(entries, bounds, None, lower);
        let found = self.implied_from(s, entries, bounds, j, a, rhs, lower);
        if found is Some && found->0.finite() {
            let again = self.residual_value(entries, bounds, j, lower);
            let rest = match self.excluded(e, term) {
                Some(v) => v,
                None => again->0,
            };
            if self.excluded(e, term) is Some {
                if term.finite() {
                    self.differences_are_exact(e.sum, term);
                }
                self.gathered_is_reach(entries, bounds, None, lower);
                assert(exact::number(rest) == self.reach(entries, bounds, Some(j), lower)) by {
                    if term.finite() {
                        self.differences_are_exact(e.sum, term);
                    }
                }
            } else {
                self.gathered_is_reach(entries, bounds, Some(j), lower);
            }
            self.reach_bounds(entries, bounds, Some(j), lower, x);
            let d = self.difference(side, rest);
            let v = found->0;
            assert(v == self.quotient(d, a));
            assert(exact::is_quotient(d, a, v));
            self.differences_are_exact(side, rest);
            exact::numbers_are_ordered(a, a);
            assert(entries[at].1.finite());
            if !d.finite() {
                assert(!v.finite());
            }
            let (n, c, w) = (exact::number(v), exact::number(a), x(j as int));
            let (r, q) = (exact::number(rest), partial(entries, x, Some(j)));
            let b = exact::number(side);
            assert(n * c == b - r);
            if lower {
                assert(b <= q + c * w && q <= r);
                assert(n * c <= c * w);
            } else {
                assert(q + c * w <= b && r <= q);
                assert(c * w <= n * c);
            }
            assert(c != 0 as real);
            assert(n * c <= c * w && c > 0 as real ==> n <= w) by (nonlinear_arith);
            assert(n * c <= c * w && c < 0 as real ==> w <= n) by (nonlinear_arith);
            assert(c * w <= n * c && c > 0 as real ==> w <= n) by (nonlinear_arith);
            assert(c * w <= n * c && c < 0 as real ==> n <= w) by (nonlinear_arith);
        }
    }

    /// A bound that holds narrows an interval around the point, and is no conflict.
    proof fn narrowing_keeps(
        &self,
        n: Narrowed,
        j: usize,
        a: Real,
        side: Side,
        value: Option<Real>,
        limits: BoundLimits,
        x: spec_fn(int) -> real,
    )
        requires
            inside(n.bounds, x),
            n.conflict is None,
            j < n.bounds.len(),
            value matches Some(v) ==> v.finite() ==> match side {
                Side::Lower => exact::number(v) <= x(j as int),
                Side::Upper => x(j as int) <= exact::number(v),
            },
        ensures
            ({
                let m = self.narrowed(n, j, a, side, value, limits, true);
                &&& m.conflict is None
                &&& inside(m.bounds, x)
            }),
    {
        if let Some(v) = value {
            let b = n.bounds[j as int];
            let m = self.narrowed(n, j, a, side, value, limits, true);
            assert(exact::admits(b, x(j as int)));
            if v.finite() {
                let new = bounding::with_side(b, side, v);
                if new.lower.finite() && new.upper.finite() {
                    exact::numbers_are_ordered(new.upper, new.lower);
                }
                assert(!new.upper.lt(new.lower));
                assert(exact::admits(new, x(j as int)));
            }
            assert forall|k: int| 0 <= k < m.bounds.len() implies exact::admits(
                #[trigger] m.bounds[k],
                x(k),
            ) by {
                assert(exact::admits(n.bounds[k], x(k)));
            }
        }
    }

    /// A narrowed interval lies within the interval that it was.
    proof fn narrowing_narrows(
        &self,
        n: Narrowed,
        j: usize,
        a: Real,
        side: Side,
        value: Option<Real>,
        limits: BoundLimits,
        x: spec_fn(int) -> real,
    )
        requires
            j < n.bounds.len(),
            inside(self.narrowed(n, j, a, side, value, limits, true).bounds, x),
        ensures
            inside(n.bounds, x),
            self.narrowed(n, j, a, side, value, limits, true).bounds.len() == n.bounds.len(),
    {
        let m = self.narrowed(n, j, a, side, value, limits, true);
        assert forall|k: int| 0 <= k < n.bounds.len() implies exact::admits(
            #[trigger] n.bounds[k],
            x(k),
        ) by {
            assert(exact::admits(m.bounds[k], x(k)));
            if k == j && m.bounds != n.bounds {
                let v = value->0;
                let held = side.of(n.bounds[k]);
                assert(v.finite());
                if held.finite() {
                    exact::numbers_are_ordered(held, v);
                }
            }
        }
    }

    /// The bounds that a row implies keep every point that is within the bounds and
    /// satisfies the row.
    proof fn rows_narrow_around_points(
        &self,
        n: Narrowed,
        entries: Seq<(usize, Real)>,
        rhs: Bounds,
        limits: BoundLimits,
        k: int,
        x: spec_fn(int) -> real,
    )
        requires
            self.exact(),
            n.conflict is None,
            inside(n.bounds, x),
            is_row(entries, n.bounds.len()),
            exact::admits(rhs, exact::activity_at(entries, x)),
            0 <= k,
        ensures
            self.row_narrowed(n, entries, rhs, limits, k).conflict is None,
            inside(self.row_narrowed(n, entries, rhs, limits, k).bounds, x),
        decreases entries.len() - k,
    {
        if k < entries.len() {
            let (j, a) = entries[k];
            assert(entries[k].0 < n.bounds.len());
            let activity = self.span(entries, n.bounds);
            let low = self.implied_from(activity, entries, n.bounds, j, a, rhs, true);
            let high = self.implied_from(activity, entries, n.bounds, j, a, rhs, false);
            let (first, second) = if zero().lt(a) {
                (Side::Lower, Side::Upper)
            } else {
                (Side::Upper, Side::Lower)
            };
            assert(entries[k].1.finite());
            exact::numbers_are_ordered(a, a);
            self.implied_bounds_hold(entries, n.bounds, k, rhs, true, x);
            self.implied_bounds_hold(entries, n.bounds, k, rhs, false, x);
            self.narrowing_keeps(n, j, a, first, low, limits, x);
            let m = self.narrowed(n, j, a, first, low, limits, true);
            self.narrowing_keeps(m, j, a, second, high, limits, x);
            let o = self.narrowed(m, j, a, second, high, limits, true);
            self.rows_narrow_around_points(o, entries, rhs, limits, k + 1, x);
        }
    }

    proof fn rows_narrow(
        &self,
        n: Narrowed,
        entries: Seq<(usize, Real)>,
        rhs: Bounds,
        limits: BoundLimits,
        k: int,
        x: spec_fn(int) -> real,
    )
        requires
            is_row(entries, n.bounds.len()),
            inside(self.row_narrowed(n, entries, rhs, limits, k).bounds, x),
            0 <= k,
        ensures
            inside(n.bounds, x),
            self.row_narrowed(n, entries, rhs, limits, k).bounds.len() == n.bounds.len(),
        decreases entries.len() - k,
    {
        if k < entries.len() && n.conflict is None {
            let (j, a) = entries[k];
            assert(entries[k].0 < n.bounds.len());
            let activity = self.span(entries, n.bounds);
            let low = self.implied_from(activity, entries, n.bounds, j, a, rhs, true);
            let high = self.implied_from(activity, entries, n.bounds, j, a, rhs, false);
            let (first, second) = if zero().lt(a) {
                (Side::Lower, Side::Upper)
            } else {
                (Side::Upper, Side::Lower)
            };
            let m = self.narrowed(n, j, a, first, low, limits, true);
            let o = self.narrowed(m, j, a, second, high, limits, true);
            self.rows_narrow(o, entries, rhs, limits, k + 1, x);
            self.narrowing_narrows(m, j, a, second, high, limits, x);
            self.narrowing_narrows(n, j, a, first, low, limits, x);
        }
    }

    proof fn narrowing_keeps_length(
        &self,
        n: Narrowed,
        entries: Seq<(usize, Real)>,
        rhs: Bounds,
        limits: BoundLimits,
        k: int,
    )
        requires
            is_row(entries, n.bounds.len()),
            0 <= k,
        ensures
            self.row_narrowed(n, entries, rhs, limits, k).bounds.len() == n.bounds.len(),
        decreases entries.len() - k,
    {
        if k < entries.len() && n.conflict is None {
            let (j, a) = entries[k];
            assert(entries[k].0 < n.bounds.len());
            let activity = self.span(entries, n.bounds);
            let low = self.implied_from(activity, entries, n.bounds, j, a, rhs, true);
            let high = self.implied_from(activity, entries, n.bounds, j, a, rhs, false);
            let (first, second) = if zero().lt(a) {
                (Side::Lower, Side::Upper)
            } else {
                (Side::Upper, Side::Lower)
            };
            let m = self.narrowed(n, j, a, first, low, limits, true);
            let o = self.narrowed(m, j, a, second, high, limits, true);
            self.narrowing_keeps_length(o, entries, rhs, limits, k + 1);
        }
    }

    /// A point within the bounds lies beyond the side of the row that a multiplier
    /// names: below the lower one, or above the upper one.
    pub open spec fn refuted(rhs: Bounds, multiplier: Real, activity: real) -> bool {
        ||| multiplier == one() && rhs.lower.finite() && activity < exact::number(rhs.lower)
        ||| multiplier == minus_one() && rhs.upper.finite() && exact::number(rhs.upper) < activity
    }

    proof fn narrowing_refutes(
        &self,
        n: Narrowed,
        bounds: Seq<Bounds>,
        entries: Seq<(usize, Real)>,
        at: int,
        rhs: Bounds,
        lower: bool,
        limits: BoundLimits,
        x: spec_fn(int) -> real,
    )
        requires
            self.exact(),
            n.conflict is None,
            inside(n.bounds, x),
            inside(bounds, x),
            n.bounds.len() == bounds.len(),
            is_row(entries, bounds.len()),
            0 <= at < entries.len(),
        ensures
            ({
                let (j, a) = entries[at];
                let side = if lower == zero().lt(a) {
                    Side::Lower
                } else {
                    Side::Upper
                };
                let value = self.implied_from(
                    self.span(entries, bounds),
                    entries,
                    bounds,
                    j,
                    a,
                    rhs,
                    lower,
                );
                self.narrowed(n, j, a, side, value, limits, true).conflict matches Some(m)
                    ==> Self::refuted(rhs, m, exact::activity_at(entries, x))
            }),
    {
        let (j, a) = entries[at];
        assert(entries[at].0 < bounds.len() && entries[at].1.finite());
        exact::numbers_are_ordered(a, a);
        let open = if lower {
            Bounds { lower: rhs.lower, upper: infinity() }
        } else {
            Bounds { lower: neg_infinity(), upper: rhs.upper }
        };
        let t = exact::activity_at(entries, x);
        let s = self.span(entries, bounds);
        let value = self.implied_from(s, entries, bounds, j, a, rhs, lower);
        assert(value == self.implied_from(s, entries, bounds, j, a, open, lower));
        if exact::admits(open, t) {
            self.implied_bounds_hold(entries, bounds, at, open, lower, x);
            let side = if lower == zero().lt(a) {
                Side::Lower
            } else {
                Side::Upper
            };
            self.narrowing_keeps(n, j, a, side, value, limits, x);
        }
        if let Some(v) = value {
            if v.finite() {
                let rest = match self.excluded(
                    s.end(lower),
                    self.term(a, bounds[j as int], lower),
                ) {
                    Some(v) => v,
                    None => self.residual_value(entries, bounds, j, lower)->0,
                };
                let d = self.difference(
                    if lower {
                        rhs.lower
                    } else {
                        rhs.upper
                    },
                    rest,
                );
                assert(exact::is_quotient(d, a, v));
                assert(!a.zero());
            }
        }
    }

    proof fn conflicts_refute(
        &self,
        n: Narrowed,
        entries: Seq<(usize, Real)>,
        rhs: Bounds,
        limits: BoundLimits,
        k: int,
        x: spec_fn(int) -> real,
    )
        requires
            self.exact(),
            n.conflict is None,
            is_row(entries, n.bounds.len()),
            0 <= k,
            inside(self.row_narrowed(n, entries, rhs, limits, k).bounds, x),
        ensures
            self.row_narrowed(n, entries, rhs, limits, k).conflict matches Some(m)
                ==> Self::refuted(rhs, m, exact::activity_at(entries, x)),
        decreases entries.len() - k,
    {
        if k < entries.len() {
            let (j, a) = entries[k];
            assert(entries[k].0 < n.bounds.len());
            let activity = self.span(entries, n.bounds);
            let low = self.implied_from(activity, entries, n.bounds, j, a, rhs, true);
            let high = self.implied_from(activity, entries, n.bounds, j, a, rhs, false);
            let (first, second) = if zero().lt(a) {
                (Side::Lower, Side::Upper)
            } else {
                (Side::Upper, Side::Lower)
            };
            let m = self.narrowed(n, j, a, first, low, limits, true);
            let o = self.narrowed(m, j, a, second, high, limits, true);
            self.rows_narrow(o, entries, rhs, limits, k + 1, x);
            self.narrowing_narrows(m, j, a, second, high, limits, x);
            self.narrowing_narrows(n, j, a, first, low, limits, x);
            self.narrowing_refutes(n, n.bounds, entries, k, rhs, true, limits, x);
            if m.conflict is None {
                self.narrowing_refutes(m, n.bounds, entries, k, rhs, false, limits, x);
                if o.conflict is None {
                    self.conflicts_refute(o, entries, rhs, limits, k + 1, x);
                }
            }
        }
    }

    /// The multiplier of a row that is called infeasible proves it: every point
    /// within the bounds has an activity below the lower side of the row, if the
    /// multiplier is one, or above its upper side, if it is minus one.
    pub proof fn infeasible_rows_are_refuted(
        &self,
        before: Model,
        after: Model,
        i: usize,
        limits: BoundLimits,
        multiplier: Real,
        entries: Seq<(usize, Real)>,
        x: spec_fn(int) -> real,
    )
        requires
            self.exact(),
            self.propagation_turn(before, after, i, limits, RowOutcome::Infeasible(multiplier)),
            i < before.rows@.len(),
            linked::lists_line(entries, before.a@, false, i as int),
            is_row(entries, before.bounds@.len()),
            !limits.gains.feasibility.lt(zero()),
            inside(after.bounds@, x),
        ensures
            before.rows@[i as int] is Linear,
            Self::refuted(
                before.rows@[i as int]->Linear_0,
                multiplier,
                exact::activity_at(entries, x),
            ),
    {
        listing::line_is(entries, before.a@, false, i as int);
        if let RowDomain::Linear(b) = before.rows@[i as int] {
            let activity = self.span(entries, before.bounds@);
            let needed = Self::sides_needed(activity, b);
            let n = Narrowed { bounds: before.bounds@, count: 0, conflict: None };
            if inside(before.bounds@, x) {
                self.spans_bound(entries, before.bounds@, x);
            }
            if let Some(v) = activity.min.finite_value() {
                if b.upper.finite() && self.apart(v, b.upper, limits.gains.feasibility) {
                    self.apart_is_apart(v, b.upper, limits.gains.feasibility);
                }
            }
            if let Some(v) = activity.max.finite_value() {
                if b.lower.finite() && self.apart(b.lower, v, limits.gains.feasibility) {
                    self.apart_is_apart(b.lower, v, limits.gains.feasibility);
                }
            }
            if inside(self.row_narrowed(n, entries, needed, limits, 0).bounds, x) {
                self.conflicts_refute(n, entries, needed, limits, 0, x);
            }
        }
    }

    /// What lies apart is apart, for a tolerance that is not negative.
    pub proof fn apart_is_apart(&self, lower: Real, upper: Real, feasibility: Real)
        requires
            self.exact(),
            lower.finite(),
            upper.finite(),
            !feasibility.lt(zero()),
            self.apart(lower, upper, feasibility),
        ensures
            exact::number(upper) < exact::number(lower),
    {
        exact::numbers_are_ordered(lower, upper);
        exact::numbers_are_ordered(upper, lower);
        exact::one_is_one();
        let larger = lower.absolute().larger(upper.absolute());
        let scale = self.sum(one(), larger);
        let margin = self.product(feasibility, scale);
        let end = self.sum(upper, margin);
        assert(exact::is_sum(one(), larger, scale));
        assert(exact::is_product(feasibility, scale, margin));
        assert(exact::is_sum(upper, margin, end));
        if scale.finite() {
            exact::numbers_are_ordered(scale, scale);
        }
        if feasibility.finite() {
            exact::numbers_are_ordered(feasibility, zero());
            let (f, s) = (exact::number(feasibility), exact::number(scale));
            assert(f >= 0 as real && s >= 0 as real ==> f * s >= 0 as real) by (nonlinear_arith);
        }
        if end.finite() {
            exact::numbers_are_ordered(end, lower);
        }
    }

    /// A turn of propagation keeps the points of its row: a point is within the
    /// bounds and satisfies the row before the turn exactly when it is and does
    /// afterwards. So a row that is called infeasible has no point within the
    /// bounds, a side that is dropped was no restriction, and no bound cuts a point
    /// of the row off, whatever the signs of the coefficients.
    pub proof fn propagation_keeps_points(
        &self,
        before: Model,
        after: Model,
        i: usize,
        limits: BoundLimits,
        outcome: RowOutcome,
        entries: Seq<(usize, Real)>,
        x: spec_fn(int) -> real,
    )
        requires
            self.exact(),
            self.propagation_turn(before, after, i, limits, outcome),
            i < before.rows@.len(),
            linked::lists_line(entries, before.a@, false, i as int),
            is_row(entries, before.bounds@.len()),
            !limits.gains.feasibility.lt(zero()),
        ensures
            after.bounds@.len() == before.bounds@.len(),
            before.rows@[i as int] matches RowDomain::Linear(b) ==> {
                let t = exact::activity_at(entries, x);
                &&& inside(before.bounds@, x) && exact::admits(b, t) ==> {
                    &&& outcome is Tightened
                    &&& inside(after.bounds@, x)
                    &&& match after.rows@[i as int] {
                        RowDomain::Linear(c) => exact::admits(c, t),
                        other => other is Deleted,
                    }
                }
                &&& inside(after.bounds@, x) && outcome is Tightened && (match after.rows@[i as int] {
                    RowDomain::Linear(c) => exact::admits(c, t),
                    _ => true,
                }) ==> inside(before.bounds@, x) && exact::admits(b, t)
            },
            !(before.rows@[i as int] is Linear) ==> after == before,
    {
        listing::line_is(entries, before.a@, false, i as int);
        if let RowDomain::Linear(b) = before.rows@[i as int] {
            if entries.len() > 1 {
                let activity = self.span(entries, before.bounds@);
                let needed = Self::sides_needed(activity, b);
                let t = exact::activity_at(entries, x);
                let n = Narrowed { bounds: before.bounds@, count: 0, conflict: None };
                if inside(before.bounds@, x) {
                    self.spans_bound(entries, before.bounds@, x);
                    if let Some(v) = activity.min.finite_value() {
                        if b.lower.finite() {
                            exact::numbers_are_ordered(b.lower, v);
                        }
                        if b.upper.finite() && self.apart(v, b.upper, limits.gains.feasibility) {
                            self.apart_is_apart(v, b.upper, limits.gains.feasibility);
                        }
                    }
                    if let Some(v) = activity.max.finite_value() {
                        if b.upper.finite() {
                            exact::numbers_are_ordered(v, b.upper);
                        }
                        if b.lower.finite() && self.apart(b.lower, v, limits.gains.feasibility) {
                            self.apart_is_apart(b.lower, v, limits.gains.feasibility);
                        }
                    }
                    assert(exact::admits(b, t) <==> exact::admits(needed, t));
                    if exact::admits(b, t) {
                        self.rows_narrow_around_points(n, entries, needed, limits, 0, x);
                    }
                }
                self.narrowing_keeps_length(n, entries, needed, limits, 0);
                if inside(self.row_narrowed(n, entries, needed, limits, 0).bounds, x) {
                    self.rows_narrow(n, entries, needed, limits, 0, x);
                }
            }
        }
    }
}

} // verus!
