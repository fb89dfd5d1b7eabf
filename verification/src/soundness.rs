//! What the rules may conclude: rows that are merged admit the points that they
//! admitted apart, bounds that a row implies cut off no point of the row, and what
//! is called infeasible is.

use crate::arithmetic::Arithmetic;
use crate::bounds::{Bounds, RowDomain};
use crate::exact;
use crate::feasible;
use crate::listing;
use crate::model::Model;
use crate::number::{one, zero, Real};
use crate::parallel::{self, Merger};
use crate::tape::{Recovery, Rule, State};
use vstd::prelude::*;

verus! {

/// One line is a multiple of another, column by column.
pub open spec fn multiple(base: Seq<(usize, Real)>, other: Seq<(usize, Real)>, ratio: real) -> bool {
    &&& base.len() == other.len()
    &&& forall|k: int|
        0 <= k < base.len() ==> (#[trigger] base[k]).0 == other[k].0 && exact::number(base[k].1)
            == ratio * exact::number(other[k].1)
}

/// The activity of a multiple of a line is that multiple of its activity.
pub proof fn multiples_have_multiple_activities(
    base: Seq<(usize, Real)>,
    other: Seq<(usize, Real)>,
    ratio: real,
    x: spec_fn(int) -> real,
)
    requires
        multiple(base, other, ratio),
    ensures
        exact::activity_at(base, x) == ratio * exact::activity_at(other, x),
    decreases base.len(),
{
    if base.len() > 0 {
        let (b, o) = (base.drop_last(), other.drop_last());
        assert forall|k: int| 0 <= k < b.len() implies (#[trigger] b[k]).0 == o[k].0
            && exact::number(b[k].1) == ratio * exact::number(o[k].1) by {
            assert(base[k].0 == other[k].0);
        }
        multiples_have_multiple_activities(b, o, ratio, x);
        let n = base.len() - 1;
        assert(base[n].0 == other[n].0);
        let (u, v, w) = (
            exact::activity_at(o, x),
            exact::number(other[n].1),
            x(other[n].0 as int),
        );
        assert(ratio * u + (ratio * v) * w == ratio * (u + v * w)) by (nonlinear_arith);
    } else {
        assert(ratio * (0 as real) == 0 as real) by (nonlinear_arith);
    }
}

/// The larger of two lower sides, and the smaller of two upper sides, admit what
/// both admit.
pub proof fn sides_intersect(a: Real, b: Real, t: real)
    requires
        !a.nan(),
        !b.nan(),
    ensures
        exact::from_below(a.larger(b), t) <==> exact::from_below(a, t) && exact::from_below(b, t),
        exact::from_above(a.smaller(b), t) <==> exact::from_above(a, t) && exact::from_above(b, t),
{
    if a.finite() && b.finite() {
        exact::numbers_are_ordered(a, b);
    }
}

proof fn scaling(r: real, s: real, w: real)
    by (nonlinear_arith)
    ensures
        r > 0 as real ==> (s <= w <==> r * s <= r * w),
        r < 0 as real ==> (s <= w <==> r * w <= r * s),
{
}

impl<
    P: Fn(Real, Real) -> Real,
    T: Fn(Real, Real) -> Real,
    D: Fn(Real, Real) -> Real,
    H: Fn(Real, Real) -> Real,
> Arithmetic<P, T, D, H> {
    /// Lines that match exactly are multiples.
    proof fn exact_matches_are_multiples(
        &self,
        base: Seq<(usize, Real)>,
        other: Seq<(usize, Real)>,
        ratio: Real,
        tolerance: Real,
        so_far: bool,
        k: int,
    )
        requires
            self.exact(),
            base.len() == other.len(),
            0 <= k <= base.len(),
            self.matches_scaled(base, other, ratio, tolerance, so_far, k) == Some((ratio, true)),
        ensures
            so_far,
            forall|i: int|
                k <= i < base.len() ==> (#[trigger] base[i]).0 == other[i].0 && exact::number(
                    base[i].1,
                ) == exact::number(ratio) * exact::number(other[i].1),
        decreases base.len() - k,
    {
        if k < base.len() {
            let a = base[k].1;
            let scaled = self.product(ratio, other[k].1);
            assert(exact::is_product(ratio, other[k].1, scaled));
            self.exact_matches_are_multiples(
                base,
                other,
                ratio,
                tolerance,
                so_far && a.same(scaled),
                k + 1,
            );
            exact::numbers_are_ordered(scaled, scaled);
            assert(a.finite());
            exact::numbers_are_ordered(a, scaled);
            assert forall|i: int| k <= i < base.len() implies (#[trigger] base[i]).0 == other[i].0
                && exact::number(base[i].1) == exact::number(ratio) * exact::number(
                other[i].1,
            ) by {
                if i > k {
                    assert(base[i].0 == other[i].0);
                }
            }
        }
    }

    /// A match keeps the ratio that it started with.
    proof fn matches_keep_the_ratio(
        &self,
        base: Seq<(usize, Real)>,
        other: Seq<(usize, Real)>,
        ratio: Real,
        tolerance: Real,
        so_far: bool,
        k: int,
    )
        ensures
            self.matches_scaled(base, other, ratio, tolerance, so_far, k) matches Some((r, _))
                ==> r == ratio,
        decreases base.len() - k,
    {
        if k < base.len() && k < other.len() {
            let a = base[k].1;
            let scaled = self.product(ratio, other[k].1);
            self.matches_keep_the_ratio(
                base,
                other,
                ratio,
                tolerance,
                so_far && a.same(scaled),
                k + 1,
            );
        }
    }

    /// The sides of a range, multiplied: what the product of a ratio and a point
    /// has to satisfy.
    proof fn scaled_sides(&self, ratio: Real, c: Bounds, w: real)
        requires
            self.exact(),
            ratio.finite(),
            !ratio.zero(),
            feasible::sided(c),
        ensures
            ({
                let (cl, cu) = if exact::number(ratio) > 0 as real {
                    (c.lower, c.upper)
                } else {
                    (c.upper, c.lower)
                };
                let (lower, upper) = (self.product(ratio, cl), self.product(ratio, cu));
                (cl.finite() ==> lower.finite()) && (cu.finite() ==> upper.finite()) ==> {
                    &&& !lower.nan()
                    &&& !upper.nan()
                    &&& exact::admits(c, w) <==> exact::admits(
                        (Bounds { lower, upper }),
                        exact::number(ratio) * w,
                    )
                }
            }),
    {
        exact::numbers_are_ordered(ratio, ratio);
        let r = exact::number(ratio);
        let (l, u) = (self.product(ratio, c.lower), self.product(ratio, c.upper));
        assert(exact::is_product(ratio, c.lower, l));
        assert(exact::is_product(ratio, c.upper, u));
        scaling(r, exact::number(c.lower), w);
        scaling(r, w, exact::number(c.upper));
        assert(zero().lt(ratio) <==> !ratio.negative_sign());
    }

    /// A merger of two rows says what both say, for positive and negative ratios
    /// alike. Where the first row is the ratio times the second, an activity of the
    /// second and that multiple of it are admitted by the two rows exactly when the
    /// joined sides admit the multiple.
    pub proof fn merged_rows_admit_what_both_admit(
        &self,
        model: Model,
        base: usize,
        other: usize,
        tolerance: Real,
        feasibility: Real,
        ratio: Real,
        common: Bounds,
        w: real,
    )
        requires
            self.exact(),
            self.row_merger(model, base, other, tolerance, feasibility) == Merger::Join(
                ratio,
                common,
            ),
            model.rows@[base as int] matches RowDomain::Linear(b) && feasible::sided(b),
            model.rows@[other as int] matches RowDomain::Linear(c) && feasible::sided(c),
        ensures
            ratio.finite(),
            !ratio.zero(),
            ({
                let u = exact::number(ratio) * w;
                let b = model.rows@[base as int]->Linear_0;
                let c = model.rows@[other as int]->Linear_0;
                &&& exact::admits(common, u) <==> exact::admits(b, u) && exact::admits(c, w)
                &&& exact::admits(parallel::sides_taken(b, common), u) <==> exact::admits(common, u)
            }),
    {
        let first = listing::line(model.a@, false, base as int);
        let second = listing::line(model.a@, false, other as int);
        let start = self.quotient(first[0].1, second[0].1);
        self.matches_keep_the_ratio(first, second, start, tolerance, true, 0);
        let b = model.rows@[base as int]->Linear_0;
        let c = model.rows@[other as int]->Linear_0;
        exact::numbers_are_ordered(ratio, ratio);
        self.scaled_sides(ratio, c, w);
        let (cl, cu) = if zero().lt(ratio) {
            (c.lower, c.upper)
        } else {
            (c.upper, c.lower)
        };
        let (lower, upper) = (self.product(ratio, cl), self.product(ratio, cu));
        let u = exact::number(ratio) * w;
        sides_intersect(b.lower, lower, u);
        sides_intersect(b.upper, upper, u);
        sides_intersect(b.lower, common.lower, u);
        sides_intersect(b.upper, common.upper, u);
    }

    /// A merger that is exact speaks of every point: both rows admit it exactly when
    /// the joined sides do. What is taken for parallel with a tolerance is an exact
    /// multiple wherever the coefficients are.
    pub proof fn merged_rows_admit_the_same_points(
        &self,
        model: Model,
        base: usize,
        other: usize,
        tolerance: Real,
        feasibility: Real,
        ratio: Real,
        common: Bounds,
        x: spec_fn(int) -> real,
    )
        requires
            self.exact(),
            self.row_merger(model, base, other, tolerance, feasibility) == Merger::Join(
                ratio,
                common,
            ),
            model.rows@[base as int] matches RowDomain::Linear(b) && feasible::sided(b),
            model.rows@[other as int] matches RowDomain::Linear(c) && feasible::sided(c),
            multiple(
                listing::line(model.a@, false, base as int),
                listing::line(model.a@, false, other as int),
                exact::number(ratio),
            ),
        ensures
            ({
                let u = exact::activity_at(listing::line(model.a@, false, base as int), x);
                let w = exact::activity_at(listing::line(model.a@, false, other as int), x);
                exact::admits(common, u) <==> exact::admits(
                    model.rows@[base as int]->Linear_0,
                    u,
                ) && exact::admits(model.rows@[other as int]->Linear_0, w)
            }),
    {
        let first = listing::line(model.a@, false, base as int);
        let second = listing::line(model.a@, false, other as int);
        multiples_have_multiple_activities(first, second, exact::number(ratio), x);
        self.merged_rows_admit_what_both_admit(
            model,
            base,
            other,
            tolerance,
            feasibility,
            ratio,
            common,
            exact::activity_at(second, x),
        );
    }

    /// A conflict of two rows is one: the first row is a multiple of the second, and
    /// no point satisfies both. The multiplier proves it: over all activities that
    /// the rows admit one by one, it separates the first from the multiple of the
    /// second.
    pub proof fn conflicts_of_rows_are_conflicts(
        &self,
        model: Model,
        base: usize,
        other: usize,
        tolerance: Real,
        feasibility: Real,
        multiplier: Real,
        ratio: Real,
        x: spec_fn(int) -> real,
        u: real,
        w: real,
    )
        requires
            self.exact(),
            self.row_merger(model, base, other, tolerance, feasibility) == Merger::Conflict(
                multiplier,
                ratio,
            ),
            model.rows@[base as int] matches RowDomain::Linear(b) && feasible::sided(b),
            model.rows@[other as int] matches RowDomain::Linear(c) && feasible::sided(c),
        ensures
            multiple(
                listing::line(model.a@, false, base as int),
                listing::line(model.a@, false, other as int),
                exact::number(ratio),
            ),
            !(exact::admits(
                model.rows@[base as int]->Linear_0,
                exact::activity_at(listing::line(model.a@, false, base as int), x),
            ) && exact::admits(
                model.rows@[other as int]->Linear_0,
                exact::activity_at(listing::line(model.a@, false, other as int), x),
            )),
            exact::admits(model.rows@[base as int]->Linear_0, u) && exact::admits(
                model.rows@[other as int]->Linear_0,
                w,
            ) ==> exact::number(multiplier) * (u - exact::number(ratio) * w) > 0 as real,
    {
        let first = listing::line(model.a@, false, base as int);
        let second = listing::line(model.a@, false, other as int);
        let start = self.quotient(first[0].1, second[0].1);
        self.matches_keep_the_ratio(first, second, start, tolerance, true, 0);
        self.exact_matches_are_multiples(first, second, ratio, tolerance, true, 0);
        let r = exact::number(ratio);
        multiples_have_multiple_activities(first, second, r, x);
        self.conflicts_separate(model, base, other, tolerance, feasibility, multiplier, ratio, u, w);
        let (p, q) = (exact::activity_at(first, x), exact::activity_at(second, x));
        self.conflicts_separate(model, base, other, tolerance, feasibility, multiplier, ratio, p, q);
        assert(exact::number(multiplier) * (p - r * q) == 0 as real) by (nonlinear_arith)
            requires
                p == r * q,
        ;
    }

    proof fn conflicts_separate(
        &self,
        model: Model,
        base: usize,
        other: usize,
        tolerance: Real,
        feasibility: Real,
        multiplier: Real,
        ratio: Real,
        u: real,
        w: real,
    )
        requires
            self.exact(),
            self.row_merger(model, base, other, tolerance, feasibility) == Merger::Conflict(
                multiplier,
                ratio,
            ),
            model.rows@[base as int] matches RowDomain::Linear(b) && feasible::sided(b),
            model.rows@[other as int] matches RowDomain::Linear(c) && feasible::sided(c),
            ratio.finite(),
            !ratio.zero(),
        ensures
            exact::admits(model.rows@[base as int]->Linear_0, u) && exact::admits(
                model.rows@[other as int]->Linear_0,
                w,
            ) ==> exact::number(multiplier) * (u - exact::number(ratio) * w) > 0 as real,
    {
        exact::one_is_one();
        let b = model.rows@[base as int]->Linear_0;
        let c = model.rows@[other as int]->Linear_0;
        exact::numbers_are_ordered(ratio, ratio);
        self.scaled_sides(ratio, c, w);
        let (cl, cu) = if zero().lt(ratio) {
            (c.lower, c.upper)
        } else {
            (c.upper, c.lower)
        };
        let (lower, upper) = (self.product(ratio, cl), self.product(ratio, cu));
        let v = exact::number(ratio) * w;
        if exact::admits(b, u) && exact::admits(c, w) {
            let common = Bounds { lower: b.lower.larger(lower), upper: b.upper.smaller(upper) };
            assert(common.upper.lt(common.lower));
            if upper.finite() && b.lower.finite() {
                exact::numbers_are_ordered(upper, b.lower);
            }
            if lower.finite() && b.upper.finite() {
                exact::numbers_are_ordered(b.upper, lower);
            }
            if b.lower.finite() && b.upper.finite() {
                exact::numbers_are_ordered(b.upper, b.lower);
            }
            if lower.finite() && upper.finite() {
                exact::numbers_are_ordered(upper, lower);
            }
            if upper.lt(b.lower) {
                assert(v < u);
            } else {
                assert(b.upper.lt(lower));
                assert(u < v);
            }
            let m = exact::number(multiplier);
            let d = u - v;
            assert(m * d > 0 as real) by (nonlinear_arith)
                requires
                    m == 1 as real && d > 0 as real || m == -(1 as real) && d < 0 as real,
            ;
        }
    }

    /// The bounds of two parallel columns together admit what they admit one by one.
    pub proof fn joint_bounds_admit_sums(
        &self,
        b: Bounds,
        c: Bounds,
        ratio: Real,
        joint: Bounds,
        t: real,
        w: real,
    )
        requires
            self.exact(),
            feasible::sided(b),
            feasible::sided(c),
            ratio.finite(),
            !ratio.zero(),
            self.joint_bounds(b, c, ratio) == Some(joint),
            exact::admits(b, t),
            exact::admits(c, w),
        ensures
            exact::admits(joint, t + exact::number(ratio) * w),
    {
        let (l, u) = if zero().lt(ratio) {
            (c.lower, c.upper)
        } else {
            (c.upper, c.lower)
        };
        exact::numbers_are_ordered(ratio, ratio);
        let (p, q) = (self.product(ratio, l), self.product(ratio, u));
        assert(exact::is_product(ratio, l, p));
        assert(exact::is_product(ratio, u, q));
        assert(exact::is_sum(b.lower, p, self.sum(b.lower, p)));
        assert(exact::is_sum(b.upper, q, self.sum(b.upper, q)));
        let r = exact::number(ratio);
        scaling(r, exact::number(c.lower), w);
        scaling(r, w, exact::number(c.upper));
        assert(zero().lt(ratio) <==> !ratio.negative_sign());
    }

    /// A sum of two parallel columns that their joint bounds admit is split into
    /// values that the bounds of both admit, and the shares add up to the sum.
    pub proof fn split_sums_stay_within_bounds(
        &self,
        rule: Rule,
        st: State,
        joint: Bounds,
    )
        requires
            self.exact(),
            rule matches Rule::ParallelColumns { keep, removed, ratio, keep_bounds, removed_bounds }
                && {
                let (b, c) = (keep_bounds, removed_bounds);
                let q = self.quotient(
                    self.difference(st.x[keep as int], Self::anchor(b)),
                    ratio,
                );
                &&& keep < st.x.len() && removed < st.x.len() && keep != removed
                &&& feasible::sided(b) && feasible::sided(c)
                &&& b.lower.le(b.upper) && c.lower.le(c.upper)
                &&& ratio.finite() && !ratio.zero()
                &&& self.joint_bounds(b, c, ratio) == Some(joint)
                &&& st.x[keep as int].finite()
                &&& exact::admits(joint, exact::number(st.x[keep as int]))
                &&& q.finite()
            },
            ({
                let x = self.undone(rule, st, Recovery::Solution).x;
                x[rule->ParallelColumns_keep as int].finite()
                    && x[rule->ParallelColumns_removed as int].finite()
            }),
        ensures
            rule matches Rule::ParallelColumns { keep, removed, ratio, keep_bounds, removed_bounds }
                && {
                let x = self.undone(rule, st, Recovery::Solution).x;
                let (u, v) = (
                    exact::number(x[keep as int]),
                    exact::number(x[removed as int]),
                );
                &&& u + exact::number(ratio) * v == exact::number(st.x[keep as int])
                &&& exact::admits(keep_bounds, u)
                &&& exact::admits(removed_bounds, v)
            },
    {
        exact::numbers_are_ordered(zero(), zero());
        if let Rule::ParallelColumns { keep, removed, ratio, keep_bounds, removed_bounds } = rule {
            let (b, c) = (keep_bounds, removed_bounds);
            let sum = st.x[keep as int];
            let a = Self::anchor(b);
            let d = self.difference(sum, a);
            let q = self.quotient(d, ratio);
            let other = q.larger(c.lower).smaller(c.upper);
            let x = self.undone(rule, st, Recovery::Solution).x;
            let term = self.product(ratio, other);
            assert(x[removed as int] == other);
            assert(x[keep as int] == self.difference(sum, term));
            self.differences_are_exact(sum, a);
            self.differences_are_exact(sum, term);
            assert(exact::is_quotient(d, ratio, q));
            assert(exact::is_product(ratio, other, term));
            exact::numbers_are_ordered(ratio, ratio);
            if c.lower.finite() {
                exact::numbers_are_ordered(q, c.lower);
            }
            if c.upper.finite() {
                exact::numbers_are_ordered(q, c.upper);
            }
            if c.lower.finite() && c.upper.finite() {
                exact::numbers_are_ordered(c.lower, c.upper);
            }
            if b.lower.finite() && b.upper.finite() {
                exact::numbers_are_ordered(b.lower, b.upper);
            }
            let (l, u) = if zero().lt(ratio) {
                (c.lower, c.upper)
            } else {
                (c.upper, c.lower)
            };
            let (pl, pu) = (self.product(ratio, l), self.product(ratio, u));
            assert(exact::is_product(ratio, l, pl));
            assert(exact::is_product(ratio, u, pu));
            assert(exact::is_sum(b.lower, pl, self.sum(b.lower, pl)));
            assert(exact::is_sum(b.upper, pu, self.sum(b.upper, pu)));
            let (r, n, o) = (exact::number(ratio), exact::number(q), exact::number(other));
            assert(n < o && r > 0 as real ==> n * r < r * o) by (nonlinear_arith);
            assert(n < o && r < 0 as real ==> n * r > r * o) by (nonlinear_arith);
            assert(n > o && r > 0 as real ==> n * r > r * o) by (nonlinear_arith);
            assert(n > o && r < 0 as real ==> n * r < r * o) by (nonlinear_arith);
            assert(n == o ==> n * r == r * o) by (nonlinear_arith);
            assert(zero().lt(ratio) <==> !ratio.negative_sign());
            assert(exact::admits(c, o));
            assert(exact::admits(b, exact::number(a)));
        }
    }
}

} // verus!
