//! What comes back with columns that went with their rows: values that the rows and
//! bounds admit, and multipliers that leave the columns stationary.

use crate::arithmetic::Arithmetic;
use crate::bounds::Bounds;
use crate::exact;
use crate::feasible;
use crate::lifting;
use crate::model;
use crate::number::{one, zero, Real};
use crate::recovery;
use crate::soundness;
use crate::stationarity;
use crate::tape::{DoubletonStep, Equation, Recovery, Rule, State};
use vstd::prelude::*;

verus! {

/// The steps of a chain lead away from its root: no step defines the column or the
/// parent of an earlier one, and none uses the multiplier of an earlier row.
pub open spec fn leads_away(steps: Seq<DoubletonStep>, columns: nat, rows: nat) -> bool {
    &&& forall|k: int|
        0 <= k < steps.len() ==> {
            &&& (#[trigger] steps[k]).column < columns && steps[k].parent < columns
            &&& steps[k].row < rows
            &&& steps[k].column != steps[k].parent
            &&& steps[k].pivot.finite() && !steps[k].pivot.zero()
            &&& model::in_range(steps[k].entries@, rows)
            &&& !stationarity::listed(steps[k].entries@, steps[k].row as int)
        }
    &&& forall|k: int, l: int|
        0 <= k < l < steps.len() ==> {
            &&& (#[trigger] steps[k]).column != (#[trigger] steps[l]).column
            &&& steps[k].parent != steps[l].column
            &&& steps[k].row != steps[l].row
            &&& !stationarity::listed(steps[l].entries@, steps[k].row as int)
        }
}

/// A sum over a list does not change with a place that the list leaves out.
proof fn weight_elsewhere(entries: Seq<(usize, Real)>, v: Seq<Real>, i: int, w: Real)
    requires
        !stationarity::listed(entries, i),
        0 <= i < v.len(),
        model::in_range(entries, v.len()),
    ensures
        exact::weight(entries, v.update(i, w), None) == exact::weight(entries, v, None),
    decreases entries.len(),
{
    if entries.len() > 0 {
        let less = entries.drop_last();
        assert forall|k: int| 0 <= k < less.len() implies (#[trigger] less[k]).0 < v.len() by {
            assert(entries[k].0 < v.len());
        }
        if stationarity::listed(less, i) {
            let k = choose|k: int| 0 <= k < less.len() && (#[trigger] less[k]).0 == i;
            assert(entries[k].0 == i);
        }
        weight_elsewhere(less, v, i, w);
        assert(entries[entries.len() - 1].0 != i && entries[entries.len() - 1].0 < v.len());
    }
}

impl<
    P: Fn(Real, Real) -> Real,
    T: Fn(Real, Real) -> Real,
    D: Fn(Real, Real) -> Real,
    H: Fn(Real, Real) -> Real,
> Arithmetic<P, T, D, H> {
    /// Both shares of the equality of a step.
    pub open spec fn step_activity(step: DoubletonStep, x: Seq<Real>) -> real {
        exact::times(exact::number(step.pivot), exact::number(x[step.column as int]))
            + exact::times(exact::number(step.other), exact::number(x[step.parent as int]))
    }

    proof fn regrown_length(
        &self,
        steps: Seq<DoubletonStep>,
        x: Seq<Real>,
        rows: nat,
        mode: Recovery,
        n: nat,
    )
        requires
            leads_away(steps, x.len(), rows),
            n <= steps.len(),
        ensures
            self.regrown(steps, x, mode, n).len() == x.len(),
        decreases n,
    {
        if n > 0 {
            self.regrown_length(steps, x, rows, mode, (n - 1) as nat);
            assert(steps[n - 1].column < x.len());
        }
    }

    /// A step that has been taken holds, and those after it do not touch it.
    proof fn regrown_steps_hold(
        &self,
        steps: Seq<DoubletonStep>,
        x: Seq<Real>,
        rows: nat,
        mode: Recovery,
        n: nat,
        k: int,
    )
        requires
            self.exact(),
            leads_away(steps, x.len(), rows),
            n <= steps.len(),
            0 <= k < n,
            self.regrown(steps, x, mode, n)[steps[k].column as int].finite(),
        ensures
            Self::step_activity(steps[k], self.regrown(steps, x, mode, n)) == exact::number(
                mode.shift(steps[k].rhs),
            ),
        decreases n,
    {
        let p = (n - 1) as nat;
        self.regrown_length(steps, x, rows, mode, p);
        let before = self.regrown(steps, x, mode, p);
        let s = steps[p as int];
        assert(s.column < x.len() && s.column != s.parent && s.pivot.finite() && !s.pivot.zero());
        if k < p {
            assert(steps[k].column != s.column && steps[k].parent != s.column);
            assert(steps[k].column < x.len());
            self.regrown_steps_hold(steps, x, rows, mode, p, k);
        } else {
            let v = self.step_value(s, before, mode);
            let term = self.product(s.other, before[s.parent as int]);
            let d = self.difference(mode.shift(s.rhs), term);
            assert(exact::is_product(s.other, before[s.parent as int], term));
            assert(exact::is_quotient(d, s.pivot, v));
            self.differences_are_exact(mode.shift(s.rhs), term);
            assert(d.finite());
            reveal(exact::times);
            exact::times_commutes(exact::number(v), exact::number(s.pivot), 0 as real);
        }
    }

    proof fn descended_length(&self, steps: Seq<DoubletonStep>, y: Seq<Real>, mode: Recovery, k: int)
        requires
            forall|k: int| 0 <= k < steps.len() ==> (#[trigger] steps[k]).row < y.len(),
            0 <= k,
        ensures
            self.descended(steps, y, mode, k).len() == y.len(),
        decreases steps.len() - k,
    {
        if k < steps.len() {
            self.descended_length(steps, y, mode, k + 1);
            assert(steps[k].row < y.len());
        }
    }

    /// What the rows press on the column of a step.
    pub open spec fn step_pressure(step: DoubletonStep, y: Seq<Real>) -> real {
        exact::weight(step.entries@, y, None) + exact::times(
            exact::number(step.pivot),
            exact::number(y[step.row as int]),
        )
    }

    proof fn descended_steps_hold(
        &self,
        steps: Seq<DoubletonStep>,
        y: Seq<Real>,
        columns: nat,
        mode: Recovery,
        from: int,
        k: int,
    )
        requires
            self.exact(),
            leads_away(steps, columns, y.len()),
            0 <= from <= k < steps.len(),
            self.descended(steps, y, mode, from)[steps[k].row as int].finite(),
        ensures
            Self::step_pressure(steps[k], self.descended(steps, y, mode, from)) == (
            if mode is Solution {
                exact::number(steps[k].objective)
            } else {
                0 as real
            }),
        decreases steps.len() - from,
    {
        let s = steps[from];
        let after = self.descended(steps, y, mode, from + 1);
        let here = self.descended(steps, y, mode, from);
        assert forall|k: int| 0 <= k < steps.len() implies (#[trigger] steps[k]).row < y.len() by {}
        self.descended_length(steps, y, mode, from + 1);
        let v = self.step_multiplier(s, after, mode);
        assert(here == after.update(s.row as int, v));
        exact::numbers_are_ordered(zero(), zero());
        weight_elsewhere(steps[k].entries@, after, s.row as int, v);
        if k == from {
            let cost = if mode is Solution {
                s.objective
            } else {
                zero()
            };
            let dot = self.dot(s.entries@, after, None);
            let d = self.difference(cost, dot);
            assert(exact::is_quotient(d, s.pivot, v));
            assert(s.pivot.finite() && !s.pivot.zero());
            self.differences_are_exact(cost, dot);
            assert(d.finite());
            self.dots_are_exact(s.entries@, after, None);
            reveal(exact::times);
            exact::times_commutes(exact::number(v), exact::number(s.pivot), 0 as real);
        } else {
            assert(steps[from].row != steps[k].row);
            self.descended_steps_hold(steps, y, columns, mode, from + 1, k);
        }
    }

    proof fn cleared_columns(steps: Seq<DoubletonStep>, z: Seq<Real>, n: nat, k: int)
        requires
            forall|k: int| 0 <= k < steps.len() ==> (#[trigger] steps[k]).column < z.len(),
            0 <= k < n <= steps.len(),
        ensures
            lifting::columns_cleared(steps, z, n).len() == z.len(),
            lifting::columns_cleared(steps, z, n)[steps[k].column as int] == zero(),
        decreases n,
    {
        let m = (n - 1) as nat;
        Self::cleared_length(steps, z, m);
        assert(steps[m as int].column < z.len());
        assert(steps[k].column < z.len());
        if k < m {
            Self::cleared_columns(steps, z, m, k);
        }
    }

    proof fn cleared_length(steps: Seq<DoubletonStep>, z: Seq<Real>, n: nat)
        requires
            forall|k: int| 0 <= k < steps.len() ==> (#[trigger] steps[k]).column < z.len(),
            n <= steps.len(),
        ensures
            lifting::columns_cleared(steps, z, n).len() == z.len(),
        decreases n,
    {
        if n > 0 {
            Self::cleared_length(steps, z, (n - 1) as nat);
            assert(steps[n - 1].column < z.len());
        }
    }

    /// A chain of two-variable equalities comes back whole: every equality holds at
    /// the values of its two columns, and the multipliers of the rows alone balance
    /// the cost of the column of every step, which has no multiplier of its own.
    pub proof fn chains_come_back_whole(&self, rule: Rule, st: State, mode: Recovery, k: int)
        requires
            self.exact(),
            rule matches Rule::DoubletonChain { steps } && leads_away(
                steps@,
                st.x.len(),
                st.y.len(),
            ) && 0 <= k < steps@.len(),
            st.z.len() == st.x.len(),
            stationarity::finite_state(self.undone(rule, st, mode)),
        ensures
            rule matches Rule::DoubletonChain { steps } && {
                let (s, back) = (steps@[k], self.undone(rule, st, mode));
                &&& mode.has_point() ==> Self::step_activity(s, back.x) == exact::number(
                    mode.shift(s.rhs),
                )
                &&& mode.has_multipliers() ==> exact::number(back.z[s.column as int]) == 0 as real
                &&& mode.has_multipliers() ==> Self::step_pressure(s, back.y) == (
                if mode is Solution {
                    exact::number(s.objective)
                } else {
                    0 as real
                })
            },
    {
        if let Rule::DoubletonChain { steps } = rule {
            let back = self.undone(rule, st, mode);
            exact::numbers_are_ordered(zero(), zero());
            if mode.has_point() {
                self.regrown_length(steps@, st.x, st.y.len(), mode, steps@.len());
                assert(steps@[k].column < st.x.len());
                assert(back.x[steps@[k].column as int].finite());
                self.regrown_steps_hold(steps@, st.x, st.y.len(), mode, steps@.len(), k);
            }
            if mode.has_multipliers() {
                assert forall|k: int| 0 <= k < steps@.len() implies (#[trigger] steps@[k]).row
                    < st.y.len() by {}
                self.descended_length(steps@, st.y, mode, 0);
                assert(steps@[k].row < st.y.len());
                assert(back.y[steps@[k].row as int].finite());
                self.descended_steps_hold(steps@, st.y, st.x.len(), mode, 0, k);
                assert forall|k: int| 0 <= k < steps@.len() implies (#[trigger] steps@[k]).column
                    < st.z.len() by {}
                Self::cleared_columns(steps@, st.z, steps@.len(), k);
            }
        }
    }

    /// A saved row that its column can be solved for.
    pub open spec fn solvable(
        &self,
        equation: Equation,
        column: usize,
        x: Seq<Real>,
        mode: Recovery,
    ) -> bool {
        let a = equation.coefficient_of(column);
        let rest = self.dot(equation.entries@, x, Some(column));
        let range = mode.range(equation.bounds);
        &&& a.finite() && !a.zero()
        &&& rest.finite()
        &&& feasible::sided(range)
        &&& range.lower.finite() ==> self.quotient(self.difference(range.lower, rest), a).finite()
        &&& range.upper.finite() ==> self.quotient(self.difference(range.upper, rest), a).finite()
    }

    /// The window of a column admits what its bounds and all its rows admit.
    pub proof fn windows_admit_what_rows_admit(
        &self,
        b: Bounds,
        saved: Seq<Equation>,
        column: usize,
        x: Seq<Real>,
        mode: Recovery,
        t: real,
    )
        requires
            self.exact(),
            feasible::sided(b),
            forall|k: int|
                0 <= k < saved.len() ==> self.solvable(#[trigger] saved[k], column, x, mode),
        ensures
            !self.window(b, saved, column, x, mode).lower.nan(),
            !self.window(b, saved, column, x, mode).upper.nan(),
            exact::admits(self.window(b, saved, column, x, mode), t) <==> exact::admits(b, t) && (
            forall|k: int|
                0 <= k < saved.len() ==> exact::admits(
                    mode.range((#[trigger] saved[k]).bounds),
                    exact::weight(saved[k].entries@, x, Some(column)) + exact::number(
                        saved[k].coefficient_of(column),
                    ) * t,
                )),
        decreases saved.len(),
    {
        if saved.len() > 0 {
            let less = saved.drop_last();
            let n = saved.len() - 1;
            assert forall|k: int| 0 <= k < less.len() implies self.solvable(
                #[trigger] less[k],
                column,
                x,
                mode,
            ) by {
                assert(self.solvable(saved[k], column, x, mode));
            }
            self.windows_admit_what_rows_admit(b, less, column, x, mode, t);
            let before = self.window(b, less, column, x, mode);
            let e = saved[n];
            assert(self.solvable(e, column, x, mode));
            let a = e.coefficient_of(column);
            let rest = self.dot(e.entries@, x, Some(column));
            let range = mode.range(e.bounds);
            self.dots_are_exact(e.entries@, x, Some(column));
            let shifted = Bounds {
                lower: self.difference(range.lower, rest),
                upper: self.difference(range.upper, rest),
            };
            self.differences_are_exact(range.lower, rest);
            self.differences_are_exact(range.upper, rest);
            exact::numbers_are_ordered(rest, rest);
            let back = rest.opposite();
            assert(exact::is_sum(range.lower, back, self.sum(range.lower, back)));
            assert(exact::is_sum(range.upper, back, self.sum(range.upper, back)));
            assert(shifted.lower == self.sum(range.lower, back));
            assert(shifted.upper == self.sum(range.upper, back));
            assert(exact::is_quotient(shifted.lower, a, self.quotient(shifted.lower, a)));
            assert(exact::is_quotient(shifted.upper, a, self.quotient(shifted.upper, a)));
            assert(feasible::sided(shifted));
            self.scaled_intervals_admit_the_same(shifted, a, t);
            let own = self.scaled_interval(shifted, a);
            let w = exact::number(a) * t;
            assert(exact::admits(shifted, w) <==> exact::admits(
                range,
                exact::weight(e.entries@, x, Some(column)) + w,
            ));
            soundness::sides_intersect(before.lower, own.lower, t);
            soundness::sides_intersect(before.upper, own.upper, t);
            let here = self.window(b, saved, column, x, mode);
            assert(here.lower == before.lower.larger(own.lower));
            assert(here.upper == before.upper.smaller(own.upper));
            if exact::admits(here, t) {
                assert forall|k: int| 0 <= k < saved.len() implies exact::admits(
                    mode.range((#[trigger] saved[k]).bounds),
                    exact::weight(saved[k].entries@, x, Some(column)) + exact::number(
                        saved[k].coefficient_of(column),
                    ) * t,
                ) by {
                    if k < n {
                        assert(less[k] == saved[k]);
                    }
                }
            }
            if exact::admits(b, t) && (forall|k: int|
                0 <= k < saved.len() ==> exact::admits(
                    mode.range((#[trigger] saved[k]).bounds),
                    exact::weight(saved[k].entries@, x, Some(column)) + exact::number(
                        saved[k].coefficient_of(column),
                    ) * t,
                )) {
                assert forall|k: int| 0 <= k < less.len() implies exact::admits(
                    mode.range((#[trigger] less[k]).bounds),
                    exact::weight(less[k].entries@, x, Some(column)) + exact::number(
                        less[k].coefficient_of(column),
                    ) * t,
                ) by {
                    assert(less[k] == saved[k]);
                }
                assert(saved[n] == e);
            }
        }
    }

    /// A column that went with its rows comes back with a value that its bounds and
    /// all those rows admit, if there is one. Neither it nor the rows have a
    /// multiplier.
    pub proof fn unlocked_columns_come_back_feasible(
        &self,
        rule: Rule,
        st: State,
        mode: Recovery,
        t: real,
        k: int,
    )
        requires
            self.exact(),
            rule matches Rule::Unlocked { column, bounds, rows } && {
                &&& column < st.x.len()
                &&& feasible::sided(mode.range(bounds))
                &&& forall|k: int|
                    0 <= k < rows@.len() ==> self.solvable(#[trigger] rows@[k], column, st.x, mode)
                        && rows@[k].row < st.y.len()
                &&& exact::admits(
                    self.window(mode.range(bounds), rows@, column, st.x, mode),
                    t,
                )
                &&& 0 <= k < rows@.len()
            },
            st.z.len() == st.x.len(),
        ensures
            rule matches Rule::Unlocked { column, bounds, rows } && {
                let back = self.undone(rule, st, mode);
                let v = exact::number(back.x[column as int]);
                &&& mode.has_point() ==> exact::admits(mode.range(bounds), v) && exact::admits(
                    mode.range(rows@[k].bounds),
                    exact::weight(rows@[k].entries@, st.x, Some(column)) + exact::number(
                        rows@[k].coefficient_of(column),
                    ) * v,
                )
                &&& mode.has_multipliers() ==> exact::number(back.z[column as int]) == 0 as real
                    && exact::number(back.y[rows@[k].row as int]) == 0 as real
            },
    {
        if let Rule::Unlocked { column, bounds, rows } = rule {
            exact::numbers_are_ordered(zero(), zero());
            let b = mode.range(bounds);
            let w = self.window(b, rows@, column, st.x, mode);
            self.windows_admit_what_rows_admit(b, rows@, column, st.x, mode, t);
            if w.lower.finite() {
                exact::numbers_are_ordered(zero(), w.lower);
            }
            if w.upper.finite() {
                exact::numbers_are_ordered(zero(), w.upper);
            }
            if w.lower.finite() && w.upper.finite() {
                exact::numbers_are_ordered(w.lower, w.upper);
            }
            let v = zero().larger(w.lower).smaller(w.upper);
            assert(exact::admits(w, exact::number(v)));
            self.windows_admit_what_rows_admit(b, rows@, column, st.x, mode, exact::number(v));
            assert(rows@[k].row < st.y.len());
            if mode.has_multipliers() {
                assert forall|k: int| 0 <= k < rows@.len() implies (#[trigger] rows@[k]).row
                    < st.y.len() by {}
                Self::cleared_rows(st.y, rows@, k);
            }
        }
    }

    proof fn cleared_rows(y: Seq<Real>, saved: Seq<Equation>, k: int)
        requires
            forall|k: int| 0 <= k < saved.len() ==> (#[trigger] saved[k]).row < y.len(),
            0 <= k < saved.len(),
        ensures
            recovery::rows_cleared(y, saved).len() == y.len(),
            recovery::rows_cleared(y, saved)[saved[k].row as int] == zero(),
        decreases saved.len(),
    {
        let less = saved.drop_last();
        assert forall|k: int| 0 <= k < less.len() implies (#[trigger] less[k]).row < y.len() by {
            assert(saved[k].row < y.len());
        }
        Self::rows_keep_length(y, less);
        assert(saved[saved.len() - 1].row < y.len());
        assert(saved[k].row < y.len());
        if k < less.len() {
            assert(less[k] == saved[k]);
            Self::cleared_rows(y, less, k);
        }
    }

    proof fn rows_keep_length(y: Seq<Real>, saved: Seq<Equation>)
        requires
            forall|k: int| 0 <= k < saved.len() ==> (#[trigger] saved[k]).row < y.len(),
        ensures
            recovery::rows_cleared(y, saved).len() == y.len(),
        decreases saved.len(),
    {
        if saved.len() > 0 {
            let less = saved.drop_last();
            assert forall|k: int| 0 <= k < less.len() implies (#[trigger] less[k]).row
                < y.len() by {
                assert(saved[k].row < y.len());
            }
            Self::rows_keep_length(y, less);
            assert(saved[saved.len() - 1].row < y.len());
        }
    }

    /// The slack of a cone row comes back as what the row leaves of its right-hand
    /// side.
    pub proof fn cone_slacks_come_back(&self, rule: Rule, st: State, mode: Recovery)
        requires
            self.exact(),
            mode.has_point(),
            rule matches Rule::ConeSlack { row, .. } && row < st.s.len()
                && self.undone(rule, st, mode).s[row as int].finite(),
        ensures
            rule matches Rule::ConeSlack { row, rhs, entries } && exact::weight(
                entries@,
                st.x,
                None,
            ) + exact::number(self.undone(rule, st, mode).s[row as int]) == exact::number(
                mode.shift(rhs),
            ),
    {
        if let Rule::ConeSlack { row, rhs, entries } = rule {
            let dot = self.dot(entries@, st.x, None);
            self.differences_are_exact(mode.shift(rhs), dot);
            self.dots_are_exact(entries@, st.x, None);
        }
    }

    /// Two linear rows that stood for a second-order cone of two coordinates give
    /// their multipliers back to it: multipliers that are not negative make one in
    /// the cone, and on every slack of the cone they press what the rows' did on the
    /// sum and on the difference of its coordinates.
    pub proof fn two_dimensional_cones_come_back(
        &self,
        rule: Rule,
        st: State,
        mode: Recovery,
        s: real,
        t: real,
    )
        requires
            self.exact(),
            mode.has_multipliers(),
            rule matches Rule::SocToLinear { head, tail } && {
                let back = self.undone(rule, st, mode);
                &&& head != tail && head < st.y.len() && tail < st.y.len()
                &&& back.y[head as int].finite() && back.y[tail as int].finite()
            },
        ensures
            rule matches Rule::SocToLinear { head, tail } && {
                let back = self.undone(rule, st, mode);
                let (a, b) = (exact::number(st.y[head as int]), exact::number(st.y[tail as int]));
                let (u, v) = (
                    exact::number(back.y[head as int]),
                    exact::number(back.y[tail as int]),
                );
                &&& a >= 0 as real && b >= 0 as real ==> -u <= v <= u
                &&& u * s + v * t == a * (s + t) + b * (s - t)
            },
    {
        if let Rule::SocToLinear { head, tail } = rule {
            let (a, b) = (st.y[head as int], st.y[tail as int]);
            assert(exact::is_sum(a, b, self.sum(a, b)));
            self.differences_are_exact(a, b);
            let (p, q) = (exact::number(a), exact::number(b));
            assert((p + q) * s + (p - q) * t == p * (s + t) + q * (s - t)) by (nonlinear_arith);
        }
    }

    /// A variable that a system of equations was solved for comes back with the value
    /// that the system gives it, and without a multiplier.
    pub proof fn eliminated_variables_come_back_solved(&self, rule: Rule, st: State, mode: Recovery)
        requires
            self.exact(),
            rule matches Rule::Eliminated { column, .. } && column < st.x.len() && column
                < st.z.len() && self.undone(rule, st, mode).x[column as int].finite(),
        ensures
            rule matches Rule::Eliminated { column, offset, slopes } && {
                let back = self.undone(rule, st, mode);
                &&& mode.has_point() ==> exact::number(back.x[column as int]) == exact::number(
                    mode.shift(offset),
                ) + exact::weight(slopes@, st.x, None)
                &&& mode.has_multipliers() ==> exact::number(back.z[column as int]) == 0 as real
            },
    {
        exact::numbers_are_ordered(zero(), zero());
        if let Rule::Eliminated { column, offset, slopes } = rule {
            if mode.has_point() {
                let dot = self.dot(slopes@, st.x, None);
                assert(exact::is_sum(mode.shift(offset), dot, self.sum(mode.shift(offset), dot)));
                self.dots_are_exact(slopes@, st.x, None);
            }
        }
    }

    proof fn counts_are_counts(&self, n: nat)
        requires
            self.exact(),
            self.members_count(n).finite(),
        ensures
            exact::number(self.members_count(n)) == n as real,
        decreases n,
    {
        exact::numbers_are_ordered(zero(), zero());
        exact::one_is_one();
        if n > 0 {
            let before = self.members_count((n - 1) as nat);
            assert(exact::is_sum(before, one(), self.sum(before, one())));
            self.counts_are_counts((n - 1) as nat);
        }
    }

    proof fn members_take(class: Seq<usize>, v: Seq<Real>, value: Real, n: nat, i: int)
        requires
            forall|k: int| 0 <= k < class.len() ==> (#[trigger] class[k]) < v.len(),
            n <= class.len(),
            0 <= i < v.len(),
        ensures
            lifting::members_set(class, v, value, n).len() == v.len(),
            lifting::members_set(class, v, value, n)[i] == (if exists|k: int|
                0 <= k < n && (#[trigger] class[k]) == i {
                value
            } else {
                v[i]
            }),
        decreases n,
    {
        if n > 0 {
            Self::members_take(class, v, value, (n - 1) as nat, i);
            assert(class[n - 1] < v.len());
            if exists|k: int| 0 <= k < n - 1 && (#[trigger] class[k]) == i {
                let k = choose|k: int| 0 <= k < n - 1 && (#[trigger] class[k]) == i;
                assert(0 <= k < n && class[k] == i);
            }
        }
    }

    proof fn spreading_keeps_length(&self, groups: Seq<Vec<usize>>, v: Seq<Real>, share: bool, n: nat)
        requires
            n <= groups.len(),
            partitioned(groups, v.len()),
        ensures
            self.classes_spread(groups, v, share, n).len() == v.len(),
        decreases n,
    {
        if n > 0 {
            let m = (n - 1) as nat;
            self.spreading_keeps_length(groups, v, share, m);
            let class = groups[m as int]@;
            let before = self.classes_spread(groups, v, share, m);
            assert(groups[m as int]@.len() > 0);
            assert forall|k: int| 0 <= k < class.len() implies (#[trigger] class[k])
                < before.len() by {
                assert(groups[m as int]@[k] < v.len());
            }
            assert(groups[m as int]@[0] < v.len());
            let value = if share {
                self.quotient(before[class[0] as int], self.members_count(class.len()))
            } else {
                before[class[0] as int]
            };
            Self::members_take(class, before, value, class.len(), class[0] as int);
        }
    }

    /// A member of a later class keeps what it held.
    proof fn untouched_members(
        &self,
        groups: Seq<Vec<usize>>,
        v: Seq<Real>,
        share: bool,
        n: nat,
        i: int,
        g: int,
    )
        requires
            n <= g < groups.len(),
            partitioned(groups, v.len()),
            exists|k: int| 0 <= k < groups[g]@.len() && (#[trigger] groups[g]@[k]) == i,
        ensures
            self.classes_spread(groups, v, share, n)[i] == v[i],
        decreases n,
    {
        if n > 0 {
            let m = (n - 1) as nat;
            self.untouched_members(groups, v, share, m, i, g);
            self.spreading_keeps_length(groups, v, share, m);
            let class = groups[m as int]@;
            let before = self.classes_spread(groups, v, share, m);
            assert(groups[m as int]@.len() > 0);
            assert forall|k: int| 0 <= k < class.len() implies (#[trigger] class[k])
                < before.len() by {
                assert(groups[m as int]@[k] < v.len());
            }
            let k = choose|k: int| 0 <= k < groups[g]@.len() && (#[trigger] groups[g]@[k]) == i;
            assert(groups[g]@[k] < v.len());
            if exists|l: int| 0 <= l < class.len() && (#[trigger] class[l]) == i {
                let l = choose|l: int| 0 <= l < class.len() && (#[trigger] class[l]) == i;
                assert(groups[m as int]@[l] != groups[g]@[k]);
            }
            let value = if share {
                self.quotient(before[class[0] as int], self.members_count(class.len()))
            } else {
                before[class[0] as int]
            };
            Self::members_take(class, before, value, class.len(), i);
        }
    }

    /// The members of a class share what its first member held: as many equal shares
    /// as the class has members, or each the whole.
    proof fn classes_share(
        &self,
        groups: Seq<Vec<usize>>,
        v: Seq<Real>,
        share: bool,
        n: nat,
        g: int,
        k: int,
    )
        requires
            self.exact(),
            n <= groups.len(),
            0 <= g < n,
            0 <= k < groups[g]@.len(),
            partitioned(groups, v.len()),
            self.classes_spread(groups, v, share, n)[groups[g]@[k] as int].finite(),
            share ==> self.members_count(groups[g]@.len()).finite(),
        ensures
            ({
                let after = exact::number(
                    self.classes_spread(groups, v, share, n)[groups[g]@[k] as int],
                );
                let first = exact::number(v[groups[g]@[0] as int]);
                if share {
                    after * (groups[g]@.len() as real) == first
                } else {
                    after == first
                }
            }),
        decreases n,
    {
        let m = (n - 1) as nat;
        let before = self.classes_spread(groups, v, share, m);
        let class = groups[m as int]@;
        let i = groups[g]@[k] as int;
        self.spreading_keeps_length(groups, v, share, m);
        assert(groups[m as int]@.len() > 0);
        assert forall|k: int| 0 <= k < class.len() implies (#[trigger] class[k]) < before.len() by {
            assert(groups[m as int]@[k] < v.len());
        }
        assert(groups[g]@[k] < v.len());
        let held = before[class[0] as int];
        let value = if share {
            self.quotient(held, self.members_count(class.len()))
        } else {
            held
        };
        Self::members_take(class, before, value, class.len(), i);
        if g == m {
            assert(class[k] == i);
            assert(groups[g]@[0] == class[0]);
            self.untouched_members(groups, v, share, m, class[0] as int, g);
            if share {
                let count = self.members_count(class.len());
                self.counts_are_counts(class.len());
                exact::numbers_are_ordered(count, count);
                assert(exact::is_quotient(held, count, value));
            }
        } else {
            if exists|l: int| 0 <= l < class.len() && (#[trigger] class[l]) == i {
                let l = choose|l: int| 0 <= l < class.len() && (#[trigger] class[l]) == i;
                assert(groups[g]@[k] != groups[m as int]@[l]);
            }
            self.classes_share(groups, v, share, m, g, k);
        }
    }

    /// Variables and rows that were folded into one of each class come back equal:
    /// every member of a class of variables has the value of the one, and the
    /// multipliers of the members of a class, of which each has the same, add up to
    /// the multiplier of the one.
    pub proof fn folded_classes_come_back_even(
        &self,
        rule: Rule,
        st: State,
        mode: Recovery,
        g: int,
        k: int,
    )
        requires
            self.exact(),
            st.z.len() == st.x.len(),
            rule matches Rule::LpFold { columns, rows } && partitioned(columns@, st.x.len())
                && partitioned(rows@, st.y.len()),
            stationarity::finite_state(self.undone(rule, st, mode)),
        ensures
            rule matches Rule::LpFold { columns, rows } && {
                let back = self.undone(rule, st, mode);
                &&& 0 <= g < columns@.len() && 0 <= k < columns@[g]@.len() ==> {
                    let (first, i) = (columns@[g]@[0] as int, columns@[g]@[k] as int);
                    let count = columns@[g]@.len();
                    &&& mode.has_point() ==> exact::number(back.x[i]) == exact::number(st.x[first])
                    &&& mode.has_multipliers() && self.members_count(count).finite()
                        ==> exact::number(back.z[i]) * (count as real) == exact::number(
                        st.z[first],
                    )
                }
                &&& 0 <= g < rows@.len() && 0 <= k < rows@[g]@.len() ==> {
                    let (first, i) = (rows@[g]@[0] as int, rows@[g]@[k] as int);
                    let count = rows@[g]@.len();
                    mode.has_multipliers() && self.members_count(count).finite() ==> exact::number(
                        back.y[i],
                    ) * (count as real) == exact::number(st.y[first])
                }
            },
    {
        if let Rule::LpFold { columns, rows } = rule {
            let back = self.undone(rule, st, mode);
            let (n, m) = (columns@.len(), rows@.len());
            self.spreading_keeps_length(columns@, st.x, false, n);
            self.spreading_keeps_length(columns@, st.z, true, n);
            self.spreading_keeps_length(rows@, st.y, true, m);
            if 0 <= g < n && 0 <= k < columns@[g]@.len() {
                assert(columns@[g]@[k] < st.x.len());
                if mode.has_point() {
                    assert(back.x[columns@[g]@[k] as int].finite());
                    self.classes_share(columns@, st.x, false, n, g, k);
                }
                if mode.has_multipliers() && self.members_count(columns@[g]@.len()).finite() {
                    assert(back.z[columns@[g]@[k] as int].finite());
                    self.classes_share(columns@, st.z, true, n, g, k);
                }
            }
            if 0 <= g < m && 0 <= k < rows@[g]@.len() {
                assert(rows@[g]@[k] < st.y.len());
                if mode.has_multipliers() && self.members_count(rows@[g]@.len()).finite() {
                    assert(back.y[rows@[g]@[k] as int].finite());
                    self.classes_share(rows@, st.y, true, m, g, k);
                }
            }
        }
    }
}

/// Classes that have members and no member in common.
pub open spec fn partitioned(groups: Seq<Vec<usize>>, n: nat) -> bool {
    &&& forall|g: int| 0 <= g < groups.len() ==> (#[trigger] groups[g])@.len() > 0
    &&& forall|g: int, k: int|
        0 <= g < groups.len() && 0 <= k < groups[g]@.len() ==> (#[trigger] groups[g]@[k]) < n
    &&& forall|g: int, h: int, k: int, l: int|
        0 <= g < groups.len() && 0 <= h < groups.len() && g != h && 0 <= k < groups[g]@.len() && 0
            <= l < groups[h]@.len() ==> (#[trigger] groups[g]@[k]) != (#[trigger] groups[h]@[l])
}

} // verus!
