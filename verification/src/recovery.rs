//! Recovering original coordinates from reduced ones, rule by rule.

use crate::arithmetic::Arithmetic;
use crate::bounds::Bounds;
use crate::cone;
use crate::lifting;
use crate::number::{zero, Real};
use crate::semidefinite;
use crate::tape::{self, Equation, Point, Recovery, Rule, State, ROOT_HALF};
use vstd::prelude::*;

verus! {

/// What recovery holds: a point and the slacks of cone coordinates.
pub open spec fn state(point: Point, slacks: Seq<Real>) -> State {
    State { x: point.x@, y: point.y@, z: point.z@, s: slacks }
}

/// Sizes of a state.
pub open spec fn sized(st: State, columns: nat, rows: nat) -> bool {
    &&& st.x.len() == columns
    &&& st.z.len() == columns
    &&& st.y.len() == rows
    &&& st.s.len() == 0 || st.s.len() == rows
}

/// The diagonal multipliers of the first `n` columns set to zero.
pub open spec fn diagonal_cleared(y: Seq<Real>, rows: Seq<usize>, n: nat) -> Seq<Real>
    decreases n,
{
    if n == 0 {
        y
    } else {
        diagonal_cleared(y, rows, (n - 1) as nat).update(
            rows[semidefinite::coordinate(n - 1, n - 1)] as int,
            zero(),
        )
    }
}

/// Values of rows set to zero.
pub open spec fn rows_cleared(y: Seq<Real>, saved: Seq<Equation>) -> Seq<Real>
    decreases saved.len(),
{
    if saved.len() == 0 {
        y
    } else {
        rows_cleared(y, saved.drop_last()).update(saved.last().row as int, zero())
    }
}

impl<
    P: Fn(Real, Real) -> Real,
    T: Fn(Real, Real) -> Real,
    D: Fn(Real, Real) -> Real,
    H: Fn(Real, Real) -> Real,
> Arithmetic<P, T, D, H> {
    /// The first `i` off-diagonal multipliers of column `j` pushed their two
    /// diagonal ones down.
    pub open spec fn column_lifted(&self, y: Seq<Real>, rows: Seq<usize>, j: int, i: nat) -> Seq<
        Real,
    >
        decreases i,
    {
        if i == 0 {
            y
        } else {
            let before = self.column_lifted(y, rows, j, (i - 1) as nat);
            let w = self.product(
                before[rows[semidefinite::coordinate(i - 1, j)] as int].absolute(),
                Real { bits: ROOT_HALF },
            );
            let low = rows[semidefinite::coordinate(j, j)] as int;
            let high = rows[semidefinite::coordinate(i - 1, i - 1)] as int;
            let half = before.update(low, self.difference(before[low], w));
            half.update(high, self.difference(half[high], w))
        }
    }

    pub open spec fn face_lifted(&self, y: Seq<Real>, rows: Seq<usize>, n: nat) -> Seq<Real>
        decreases n,
    {
        if n == 0 {
            y
        } else {
            self.column_lifted(
                self.face_lifted(y, rows, (n - 1) as nat),
                rows,
                n - 1,
                (n - 1) as nat,
            )
        }
    }

    /// The interval that the removed rows leave for an unlocked variable.
    pub open spec fn window(
        &self,
        b: Bounds,
        saved: Seq<Equation>,
        column: usize,
        x: Seq<Real>,
        mode: Recovery,
    ) -> Bounds
        decreases saved.len(),
    {
        if saved.len() == 0 {
            b
        } else {
            let before = self.window(b, saved.drop_last(), column, x, mode);
            let equation = saved.last();
            let a = equation.coefficient_of(column);
            let residual = self.dot(equation.entries@, x, Some(column));
            let range = mode.range(equation.bounds);
            let (l, u) = if zero().lt(a) {
                (range.lower, range.upper)
            } else {
                (range.upper, range.lower)
            };
            Bounds {
                lower: before.lower.larger(self.quotient(self.difference(l, residual), a)),
                upper: before.upper.smaller(self.quotient(self.difference(u, residual), a)),
            }
        }
    }

    /// Where a merged variable is anchored.
    pub open spec fn anchor(b: Bounds) -> Real {
        if b.lower.finite() {
            b.lower
        } else if b.upper.finite() {
            b.upper
        } else {
            zero()
        }
    }

    /// One rule undone.
    pub open spec fn undone(&self, rule: Rule, st: State, mode: Recovery) -> State {
        let primal = mode.has_point();
        let dual = mode.has_multipliers();
        match rule {
            Rule::ConeSlack { row, rhs, entries } => if primal && st.s.len() > 0 {
                State {
                    s: st.s.update(
                        row as int,
                        self.difference(mode.shift(rhs), self.dot(entries@, st.x, None)),
                    ),
                    ..st
                }
            } else {
                st
            },
            Rule::PsdZeroFace { rows, order } => if dual {
                State {
                    y: self.face_lifted(
                        diagonal_cleared(st.y, rows@, order as nat),
                        rows@,
                        order as nat,
                    ),
                    ..st
                }
            } else {
                st
            },
            Rule::SocToLinear { head, tail } => if dual {
                let a = st.y[head as int];
                let b = st.y[tail as int];
                State {
                    y: st.y.update(head as int, self.sum(a, b)).update(
                        tail as int,
                        self.difference(a, b),
                    ),
                    ..st
                }
            } else {
                st
            },
            Rule::SocFace { head, tail } => if dual {
                State { y: st.y.update(head as int, self.norm(tail@, st.y).opposite()), ..st }
            } else {
                st
            },
            Rule::RowCombination { reference, targets, .. } => if dual {
                State { y: self.transferred(st.y, reference as int, targets@, true), ..st }
            } else {
                st
            },
            Rule::Fixed { column, value, gradient, entries } => {
                let x = if primal {
                    st.x.update(column as int, mode.shift(value))
                } else {
                    st.x
                };
                let g = if mode is Solution {
                    self.slope(gradient.constant, gradient.terms@, x)
                } else {
                    zero()
                };
                let z = if dual {
                    st.z.update(
                        column as int,
                        self.difference(g, self.dot(entries@, st.y, None)),
                    )
                } else {
                    st.z
                };
                State { x, z, ..st }
            },
            Rule::Substituted { column, equation, gradient, other_rows, retained } => {
                let a = equation.coefficient_of(column);
                let x = if primal {
                    st.x.update(
                        column as int,
                        self.quotient(
                            self.difference(
                                mode.shift(equation.bounds.lower),
                                self.dot(equation.entries@, st.x, Some(column)),
                            ),
                            a,
                        ),
                    )
                } else {
                    st.x
                };
                let g = if mode is Solution {
                    self.slope(gradient.constant, gradient.terms@, x)
                } else {
                    zero()
                };
                let y = if retained {
                    st.y[equation.row as int]
                } else {
                    zero()
                };
                if dual {
                    State {
                        x,
                        z: st.z.update(column as int, self.product(a.opposite(), y)),
                        y: st.y.update(
                            equation.row as int,
                            self.sum(
                                y,
                                self.quotient(
                                    self.difference(g, self.dot(other_rows@, st.y, None)),
                                    a,
                                ),
                            ),
                        ),
                        ..st
                    }
                } else {
                    State { x, ..st }
                }
            },
            Rule::DependentRow { row, .. } => if dual {
                State { y: st.y.update(row as int, zero()), ..st }
            } else {
                st
            },
            Rule::DeletedRow(row) => if dual {
                State { y: st.y.update(row as int, zero()), ..st }
            } else {
                st
            },
            Rule::MergedRow { removed, .. } => if dual {
                State { y: st.y.update(removed as int, zero()), ..st }
            } else {
                st
            },
            Rule::TightenedBound { column, equation, side, old } => {
                let z = st.z[column as int];
                if dual && side.presses(z) && !(mode is Solution && self.near(
                    st.x[column as int],
                    old,
                )) {
                    let theta = self.quotient(z, equation.coefficient_of(column));
                    let row = equation.row as int;
                    State {
                        y: st.y.update(row, self.sum(st.y[row], theta)),
                        z: self.relieved(st.z, equation.entries@, theta).update(
                            column as int,
                            zero(),
                        ),
                        ..st
                    }
                } else {
                    st
                }
            },
            Rule::TightenedRow { row, source, ratio, side } => if dual && side.presses(
                st.y[row as int],
            ) {
                State {
                    y: st.y.update(
                        source as int,
                        self.sum(st.y[source as int], self.product(ratio, st.y[row as int])),
                    ).update(row as int, zero()),
                    ..st
                }
            } else {
                st
            },
            Rule::ParallelColumns { keep, removed, ratio, keep_bounds, removed_bounds } => {
                let b = mode.range(keep_bounds);
                let c = mode.range(removed_bounds);
                let sum = st.x[keep as int];
                let other = self.quotient(
                    self.difference(sum, Self::anchor(b)),
                    ratio,
                ).larger(c.lower).smaller(c.upper);
                State {
                    x: if primal {
                        st.x.update(removed as int, other).update(
                            keep as int,
                            self.difference(sum, self.product(ratio, other)),
                        )
                    } else {
                        st.x
                    },
                    z: if dual {
                        st.z.update(
                            removed as int,
                            self.product(ratio, st.z[keep as int]),
                        )
                    } else {
                        st.z
                    },
                    ..st
                }
            },
            Rule::Unlocked { column, bounds, rows } => {
                let b = self.window(mode.range(bounds), rows@, column, st.x, mode);
                State {
                    x: if primal {
                        st.x.update(column as int, zero().larger(b.lower).smaller(b.upper))
                    } else {
                        st.x
                    },
                    z: if dual {
                        st.z.update(column as int, zero())
                    } else {
                        st.z
                    },
                    y: if dual {
                        rows_cleared(st.y, rows@)
                    } else {
                        st.y
                    },
                    ..st
                }
            },
            Rule::DoubletonChain { steps } => State {
                x: if primal {
                    self.regrown(steps@, st.x, mode, steps@.len())
                } else {
                    st.x
                },
                y: if dual {
                    self.descended(steps@, st.y, mode, 0)
                } else {
                    st.y
                },
                z: if dual {
                    lifting::columns_cleared(steps@, st.z, steps@.len())
                } else {
                    st.z
                },
                ..st
            },
            Rule::BoundShift { column, other, row, pivot, slope, offset } => State {
                x: if primal {
                    st.x.update(
                        column as int,
                        self.sum(
                            self.sum(
                                st.x[column as int],
                                self.product(slope, st.x[other as int]),
                            ),
                            mode.shift(offset),
                        ),
                    )
                } else {
                    st.x
                },
                y: if dual {
                    st.y.update(row as int, self.quotient(st.z[column as int], pivot))
                } else {
                    st.y
                },
                z: if dual {
                    st.z.update(column as int, zero())
                } else {
                    st.z
                },
                ..st
            },
            Rule::LpFold { columns, rows } => State {
                x: if primal {
                    self.classes_spread(columns@, st.x, false, columns@.len())
                } else {
                    st.x
                },
                y: if dual {
                    self.classes_spread(rows@, st.y, true, rows@.len())
                } else {
                    st.y
                },
                z: if dual {
                    self.classes_spread(columns@, st.z, true, columns@.len())
                } else {
                    st.z
                },
                ..st
            },
            Rule::Eliminated { column, offset, slopes } => State {
                x: if primal {
                    st.x.update(
                        column as int,
                        self.sum(mode.shift(offset), self.dot(slopes@, st.x, None)),
                    )
                } else {
                    st.x
                },
                z: if dual {
                    st.z.update(column as int, zero())
                } else {
                    st.z
                },
                ..st
            },
        }
    }

    /// All rules undone, the last one first.
    pub open spec fn recovered(&self, rules: Seq<Rule>, st: State, mode: Recovery) -> State
        decreases rules.len(),
    {
        if rules.len() == 0 {
            st
        } else {
            self.recovered(rules.drop_last(), self.undone(rules.last(), st, mode), mode)
        }
    }

    pub(crate) fn clear_diagonal(&self, y: &mut Vec<Real>, rows: &Vec<usize>, order: usize)
        requires
            rows@.len() == cone::triangle(order as int),
            tape::all_within(rows@, old(y)@.len()),
        ensures
            final(y)@ == diagonal_cleared(old(y)@, rows@, order as nat),
            final(y)@.len() == old(y)@.len(),
    {
        let ghost start = y@;
        let mut j: usize = 0;
        while j < order
            invariant
                j <= order,
                y@.len() == start.len(),
                rows@.len() == cone::triangle(order as int),
                tape::all_within(rows@, y@.len()),
                y@ == diagonal_cleared(start, rows@, j as nat),
            decreases order - j,
        {
            proof {
                let n = j as int;
                cone::coordinates_are_distinct(n, n, n, n, order as int);
            }
            let k: usize = semidefinite::packed_index(j, j, rows.len());
            let row: usize = rows[k];
            assert(rows@[k as int] < y@.len());
            y.set(row, zero());
            j = j + 1;
        }
    }

    fn lift_face(&self, y: &mut Vec<Real>, rows: &Vec<usize>, order: usize)
        requires
            self.wf(),
            rows@.len() == cone::triangle(order as int),
            tape::all_within(rows@, old(y)@.len()),
        ensures
            final(y)@ == self.face_lifted(old(y)@, rows@, order as nat),
            final(y)@.len() == old(y)@.len(),
    {
        let ghost start = y@;
        let mut j: usize = 0;
        while j < order
            invariant
                j <= order,
                self.wf(),
                y@.len() == start.len(),
                rows@.len() == cone::triangle(order as int),
                tape::all_within(rows@, y@.len()),
                y@ == self.face_lifted(start, rows@, j as nat),
            decreases order - j,
        {
            let ghost before = y@;
            proof {
                let n = j as int;
                cone::coordinates_are_distinct(n, n, n, n, order as int);
            }
            let low: usize = rows[semidefinite::packed_index(j, j, rows.len())];
            let mut i: usize = 0;
            while i < j
                invariant
                    i <= j < order,
                    self.wf(),
                    y@.len() == start.len(),
                    rows@.len() == cone::triangle(order as int),
                    tape::all_within(rows@, y@.len()),
                    low == rows@[semidefinite::coordinate(j as int, j as int)],
                    low < y@.len(),
                    y@ == self.column_lifted(before, rows@, j as int, i as nat),
                decreases j - i,
            {
                proof {
                    let m = i as int;
                    let n = j as int;
                    cone::coordinates_are_distinct(m, n, m, m, order as int);
                    cone::coordinates_are_distinct(m, m, m, m, order as int);
                }
                let at: usize = rows[semidefinite::packed_index(i, j, rows.len())];
                let high: usize = rows[semidefinite::packed_index(i, i, rows.len())];
                let w = self.product_of(y[at].abs(), Real::from_bits(ROOT_HALF));
                let value = self.difference_of(y[low], w);
                y.set(low, value);
                let value = self.difference_of(y[high], w);
                y.set(high, value);
                i = i + 1;
            }
            j = j + 1;
        }
    }

    fn window_of(
        &self,
        b: Bounds,
        saved: &Vec<Equation>,
        column: usize,
        x: &Vec<Real>,
        mode: Recovery,
    ) -> (r: Bounds)
        requires
            self.wf(),
            forall|k: int|
                0 <= k < saved@.len() ==> tape::within((#[trigger] saved@[k]).entries@, x@.len())
                    && saved@[k].stores(column),
        ensures
            r == self.window(b, saved@, column, x@, mode),
    {
        let mut b = b;
        let ghost first = b;
        let mut k: usize = 0;
        assert(saved@.take(0) =~= Seq::<Equation>::empty());
        while k < saved.len()
            invariant
                k <= saved@.len(),
                self.wf(),
                forall|k: int|
                    0 <= k < saved@.len() ==> tape::within(
                        (#[trigger] saved@[k]).entries@,
                        x@.len(),
                    ) && saved@[k].stores(column),
                b == self.window(first, saved@.take(k as int), column, x@, mode),
            decreases saved@.len() - k,
        {
            let equation = &saved[k];
            assert(saved@[k as int].stores(column));
            assert(saved@.take(k + 1).drop_last() =~= saved@.take(k as int));
            let a = equation.coefficient(column);
            let residual = self.dot_of(&equation.entries, x, Some(column));
            let range = mode.bounds(equation.bounds);
            let (l, u): (Real, Real) = if zero().less(a) {
                (range.lower, range.upper)
            } else {
                (range.upper, range.lower)
            };
            let low = self.quotient_of(self.difference_of(l, residual), a);
            let high = self.quotient_of(self.difference_of(u, residual), a);
            b = Bounds { lower: b.lower.max(low), upper: b.upper.min(high) };
            k = k + 1;
        }
        assert(saved@.take(k as int) =~= saved@);
        b
    }

    pub(crate) fn clear_rows(&self, y: &mut Vec<Real>, saved: &Vec<Equation>)
        requires
            forall|k: int| 0 <= k < saved@.len() ==> (#[trigger] saved@[k]).row < old(y)@.len(),
        ensures
            final(y)@ == rows_cleared(old(y)@, saved@),
            final(y)@.len() == old(y)@.len(),
    {
        let ghost start = y@;
        let mut k: usize = 0;
        assert(saved@.take(0) =~= Seq::<Equation>::empty());
        while k < saved.len()
            invariant
                k <= saved@.len(),
                y@.len() == start.len(),
                forall|k: int| 0 <= k < saved@.len() ==> (#[trigger] saved@[k]).row < y@.len(),
                y@ == rows_cleared(start, saved@.take(k as int)),
            decreases saved@.len() - k,
        {
            assert(saved@[k as int].row < y@.len());
            assert(saved@.take(k + 1).drop_last() =~= saved@.take(k as int));
            let row: usize = saved[k].row;
            y.set(row, zero());
            k = k + 1;
        }
        assert(saved@.take(k as int) =~= saved@);
    }

    /// Undo one rule.
    pub fn undo(&self, rule: &Rule, point: &mut Point, slacks: &mut Vec<Real>, mode: Recovery)
        requires
            self.wf(),
            sized(
                state(*old(point), old(slacks)@),
                old(point).x@.len(),
                old(point).y@.len(),
            ),
            tape::rule_fits(*rule, old(point).x@.len(), old(point).y@.len()),
        ensures
            state(*final(point), final(slacks)@) == self.undone(
                *rule,
                state(*old(point), old(slacks)@),
                mode,
            ),
            sized(
                state(*final(point), final(slacks)@),
                old(point).x@.len(),
                old(point).y@.len(),
            ),
            final(slacks)@.len() == old(slacks)@.len(),
    {
        let ghost start = state(*point, slacks@);
        match rule {
            Rule::ConeSlack { row, rhs, entries } => {
                if mode.primal() && slacks.len() > 0 {
                    let activity = self.dot_of(entries, &point.x, None);
                    let value = self.difference_of(mode.offset(*rhs), activity);
                    slacks.set(*row, value);
                }
            },
            Rule::PsdZeroFace { rows, order } => {
                if mode.dual() {
                    self.clear_diagonal(&mut point.y, rows, *order);
                    self.lift_face(&mut point.y, rows, *order);
                }
            },
            Rule::SocToLinear { head, tail } => {
                if mode.dual() {
                    let a = point.y[*head];
                    let b = point.y[*tail];
                    let sum = self.sum_of(a, b);
                    let difference = self.difference_of(a, b);
                    point.y.set(*head, sum);
                    point.y.set(*tail, difference);
                }
            },
            Rule::SocFace { head, tail } => {
                if mode.dual() {
                    let norm = self.norm_of(tail, &point.y);
                    point.y.set(*head, norm.neg());
                }
            },
            Rule::RowCombination { reference, targets, .. } => {
                if mode.dual() {
                    self.transfer(&mut point.y, *reference, targets, true);
                }
            },
            Rule::Fixed { column, value, gradient, entries } => {
                if mode.primal() {
                    point.x.set(*column, mode.offset(*value));
                }
                if mode.dual() {
                    let g = if mode.solution() {
                        self.slope_of(gradient, &point.x)
                    } else {
                        zero()
                    };
                    let activity = self.dot_of(entries, &point.y, None);
                    let value = self.difference_of(g, activity);
                    point.z.set(*column, value);
                }
            },
            Rule::Substituted { column, equation, gradient, other_rows, retained } => {
                let a = equation.coefficient(*column);
                if mode.primal() {
                    let activity = self.dot_of(&equation.entries, &point.x, Some(*column));
                    let rest = self.difference_of(mode.offset(equation.bounds.lower), activity);
                    let value = self.quotient_of(rest, a);
                    point.x.set(*column, value);
                }
                if mode.dual() {
                    let g = if mode.solution() {
                        self.slope_of(gradient, &point.x)
                    } else {
                        zero()
                    };
                    let y = if *retained {
                        point.y[equation.row]
                    } else {
                        zero()
                    };
                    let z = self.product_of(a.neg(), y);
                    point.z.set(*column, z);
                    let activity = self.dot_of(other_rows, &point.y, None);
                    let rest = self.quotient_of(self.difference_of(g, activity), a);
                    let value = self.sum_of(y, rest);
                    point.y.set(equation.row, value);
                }
            },
            Rule::DependentRow { row, .. } => {
                if mode.dual() {
                    point.y.set(*row, zero());
                }
            },
            Rule::DeletedRow(row) => {
                if mode.dual() {
                    point.y.set(*row, zero());
                }
            },
            Rule::MergedRow { removed, .. } => {
                if mode.dual() {
                    point.y.set(*removed, zero());
                }
            },
            Rule::TightenedBound { column, equation, side, old } => {
                if mode.dual() {
                    let z = point.z[*column];
                    if side.used(z) && !(mode.solution() && self.active(
                        point.x[*column],
                        *old,
                    )) {
                        let theta = self.quotient_of(z, equation.coefficient(*column));
                        let y = self.sum_of(point.y[equation.row], theta);
                        point.y.set(equation.row, y);
                        self.relieve(&mut point.z, &equation.entries, theta);
                        point.z.set(*column, zero());
                    }
                }
            },
            Rule::TightenedRow { row, source, ratio, side } => {
                if mode.dual() && side.used(point.y[*row]) {
                    let moved = self.product_of(*ratio, point.y[*row]);
                    let y = self.sum_of(point.y[*source], moved);
                    point.y.set(*source, y);
                    point.y.set(*row, zero());
                }
            },
            Rule::ParallelColumns { keep, removed, ratio, keep_bounds, removed_bounds } => {
                if mode.primal() {
                    let b = mode.bounds(*keep_bounds);
                    let c = mode.bounds(*removed_bounds);
                    let sum = point.x[*keep];
                    let anchor = if b.lower.is_finite() {
                        b.lower
                    } else if b.upper.is_finite() {
                        b.upper
                    } else {
                        zero()
                    };
                    let share = self.quotient_of(self.difference_of(sum, anchor), *ratio);
                    let other = share.max(c.lower).min(c.upper);
                    point.x.set(*removed, other);
                    let rest = self.difference_of(sum, self.product_of(*ratio, other));
                    point.x.set(*keep, rest);
                }
                if mode.dual() {
                    let z = self.product_of(*ratio, point.z[*keep]);
                    point.z.set(*removed, z);
                }
            },
            Rule::Unlocked { column, bounds, rows } => {
                if mode.primal() {
                    let b = self.window_of(mode.bounds(*bounds), rows, *column, &point.x, mode);
                    point.x.set(*column, zero().max(b.lower).min(b.upper));
                }
                if mode.dual() {
                    point.z.set(*column, zero());
                    self.clear_rows(&mut point.y, rows);
                }
            },
            Rule::DoubletonChain { steps } => {
                if mode.primal() {
                    self.climb_steps(&mut point.x, steps, mode);
                }
                if mode.dual() {
                    self.descend_steps(&mut point.y, steps, mode);
                    self.clear_columns(&mut point.z, steps);
                }
            },
            Rule::BoundShift { column, other, row, pivot, slope, offset } => {
                if mode.primal() {
                    let moved = self.product_of(*slope, point.x[*other]);
                    let value = self.sum_of(
                        self.sum_of(point.x[*column], moved),
                        mode.offset(*offset),
                    );
                    point.x.set(*column, value);
                }
                if mode.dual() {
                    let y = self.quotient_of(point.z[*column], *pivot);
                    point.y.set(*row, y);
                    point.z.set(*column, zero());
                }
            },
            Rule::LpFold { columns, rows } => {
                if mode.primal() {
                    self.spread_classes(&mut point.x, columns, false);
                }
                if mode.dual() {
                    self.spread_classes(&mut point.y, rows, true);
                    self.spread_classes(&mut point.z, columns, true);
                }
            },
            Rule::Eliminated { column, offset, slopes } => {
                if mode.primal() {
                    let value = self.sum_of(
                        mode.offset(*offset),
                        self.dot_of(slopes, &point.x, None),
                    );
                    point.x.set(*column, value);
                }
                if mode.dual() {
                    point.z.set(*column, zero());
                }
            },
        }
        assert(state(*point, slacks@) =~= self.undone(*rule, start, mode));
    }

    /// Undo all rules of a tape.
    pub fn recover_with_slacks(
        &self,
        rules: &Vec<Rule>,
        point: &mut Point,
        mode: Recovery,
        slacks: &mut Vec<Real>,
    )
        requires
            self.wf(),
            sized(
                state(*old(point), old(slacks)@),
                old(point).x@.len(),
                old(point).y@.len(),
            ),
            forall|k: int|
                0 <= k < rules@.len() ==> tape::rule_fits(
                    #[trigger] rules@[k],
                    old(point).x@.len(),
                    old(point).y@.len(),
                ),
        ensures
            state(*final(point), final(slacks)@) == self.recovered(
                rules@,
                state(*old(point), old(slacks)@),
                mode,
            ),
            sized(
                state(*final(point), final(slacks)@),
                old(point).x@.len(),
                old(point).y@.len(),
            ),
            final(slacks)@.len() == old(slacks)@.len(),
    {
        let ghost start = state(*point, slacks@);
        let ghost columns = point.x@.len();
        let ghost rows = point.y@.len();
        let mut k: usize = rules.len();
        assert(rules@.take(k as int) =~= rules@);
        while k > 0
            invariant
                k <= rules@.len(),
                self.wf(),
                sized(state(*point, slacks@), columns, rows),
                slacks@.len() == start.s.len(),
                forall|k: int|
                    0 <= k < rules@.len() ==> tape::rule_fits(#[trigger] rules@[k], columns, rows),
                self.recovered(rules@, start, mode) == self.recovered(
                    rules@.take(k as int),
                    state(*point, slacks@),
                    mode,
                ),
            decreases k,
        {
            k = k - 1;
            assert(rules@.take(k + 1).drop_last() =~= rules@.take(k as int));
            assert(tape::rule_fits(rules@[k as int], columns, rows));
            self.undo(&rules[k], point, slacks, mode);
        }
        assert(rules@.take(0).len() == 0);
    }

    /// Undo all rules of a tape, without cone slacks.
    pub fn recover(&self, rules: &Vec<Rule>, point: &mut Point, mode: Recovery)
        requires
            self.wf(),
            old(point).z@.len() == old(point).x@.len(),
            forall|k: int|
                0 <= k < rules@.len() ==> tape::rule_fits(
                    #[trigger] rules@[k],
                    old(point).x@.len(),
                    old(point).y@.len(),
                ),
        ensures
            exists|slacks: Seq<Real>|
                #![trigger state(*final(point), slacks)]
                state(*final(point), slacks) == self.recovered(
                    rules@,
                    state(*old(point), Seq::<Real>::empty()),
                    mode,
                ),
            final(point).x@.len() == old(point).x@.len(),
            final(point).y@.len() == old(point).y@.len(),
            final(point).z@.len() == old(point).z@.len(),
    {
        let mut slacks: Vec<Real> = Vec::new();
        assert(slacks@ =~= Seq::<Real>::empty());
        self.recover_with_slacks(rules, point, mode, &mut slacks);
        assert(state(*point, slacks@) == state(*point, slacks@));
    }

    /// Farkas multipliers are recovered without touching the point or the
    /// slacks, and recession directions without touching multipliers.
    pub proof fn recovery_keeps_the_other_half(
        &self,
        rules: Seq<Rule>,
        st: State,
        mode: Recovery,
    )
        ensures
            !mode.has_point() ==> self.recovered(rules, st, mode).x == st.x && self.recovered(
                rules,
                st,
                mode,
            ).s == st.s,
            !mode.has_multipliers() ==> self.recovered(rules, st, mode).y == st.y
                && self.recovered(rules, st, mode).z == st.z,
        decreases rules.len(),
    {
        if rules.len() > 0 {
            self.recovery_keeps_the_other_half(
                rules.drop_last(),
                self.undone(rules.last(), st, mode),
                mode,
            );
        }
    }
}

} // verus!
