//! What the way back means where a variable was eliminated through a row.

use crate::arithmetic::Arithmetic;
use crate::exact;
use crate::number::{zero, Real};
use crate::stationarity::{self, Line, Program};
use crate::tape::{Recovery, Rule, State};
use vstd::prelude::*;

verus! {

/// An equation that gives a variable: `x_column = offset + slopes x`. The slopes are
/// row zero of `w`, and the equation is row `row` of `p`.
pub open spec fn solves(
    p: Program,
    w: Program,
    column: int,
    row: int,
    rhs: real,
    offset: real,
) -> bool {
    let a = p.a[(row, column)];
    &&& 0 <= column < p.columns
    &&& 0 <= row < p.rows
    &&& a != 0 as real
    &&& exact::times(a, offset) == rhs
    &&& w.a[(0, column)] == 0 as real
    &&& forall|k: int|
        0 <= k < p.columns && k != column ==> exact::times(a, #[trigger] w.a[(0, k)]) == -p.a[(
            row,
            k,
        )]
}

/// A problem and the problem without a variable that an equation gives. The rest of
/// the equation stays as a row if `retained`.
pub open spec fn substituted_out(
    p: Program,
    r: Program,
    w: Program,
    column: int,
    row: int,
    offset: real,
    retained: bool,
) -> bool {
    &&& r.columns == p.columns && r.rows == p.rows
    &&& forall|k: int|
        0 <= k < p.columns && k != column ==> #[trigger] r.c[k] == p.c[k] + exact::times(
            w.a[(0, k)],
            p.c[column],
        ) + exact::times(
            p.q[(k, column)] + exact::times(w.a[(0, k)], p.q[(column, column)]),
            offset,
        )
    &&& forall|k: int, l: int|
        0 <= k < p.columns && 0 <= l < p.columns && k != column ==> #[trigger] r.q[(k, l)] == (
        if l == column {
            0 as real
        } else {
            p.q[(k, l)] + exact::times(w.a[(0, k)], p.q[(column, l)]) + exact::times(
                p.q[(k, column)] + exact::times(w.a[(0, k)], p.q[(column, column)]),
                w.a[(0, l)],
            )
        })
    &&& forall|i: int, k: int|
        0 <= i < p.rows && 0 <= k < p.columns ==> #[trigger] r.a[(i, k)] == (if k == column {
            0 as real
        } else if i == row {
            if retained {
                p.a[(i, k)]
            } else {
                0 as real
            }
        } else {
            p.a[(i, k)] + exact::times(w.a[(0, k)], p.a[(i, column)])
        })
}

/// The rule and the equation of the program are the same, and what the tape keeps
/// lists the lines of the program.
pub open spec fn records_equation(p: Program, rule: Rule, mode: Recovery, rhs: real) -> bool {
    rule matches Rule::Substituted { column, equation, gradient, other_rows, .. } && {
        let (c, row) = (column as int, equation.row as int);
        &&& column < p.columns && equation.row < p.rows
        &&& equation.stores(column)
        &&& p.lists(Line::Row(row), equation.entries@, p.columns)
        &&& p.a[(row, c)] != 0 as real
        &&& rhs == exact::number(mode.shift(equation.bounds.lower))
        &&& exact::number(gradient.constant) == p.c[c]
        &&& p.lists(Line::Curve(c), gradient.terms@, p.columns)
        &&& (Program { a: p.a.insert((row, c), 0 as real), ..p }).lists(
            Line::Column(c),
            other_rows@,
            p.rows,
        )
    }
}

impl<
    P: Fn(Real, Real) -> Real,
    T: Fn(Real, Real) -> Real,
    D: Fn(Real, Real) -> Real,
    H: Fn(Real, Real) -> Real,
> Arithmetic<P, T, D, H> {
    /// The variable satisfies its equation.
    proof fn equation_holds(&self, p: Program, rule: Rule, st: State, mode: Recovery, rhs: real)
        requires
            self.exact(),
            p.sizes(st),
            mode.has_point(),
            records_equation(p, rule, mode, rhs),
            stationarity::finite_state(self.undone(rule, st, mode)),
        ensures
            rule matches Rule::Substituted { column, equation, .. } && {
                let x = self.undone(rule, st, mode).x;
                &&& p.activity(equation.row as int, x) == rhs
                &&& x == st.x.update(column as int, x[column as int])
            },
    {
        if let Rule::Substituted { column, equation, gradient, other_rows, retained } = rule {
            let (c, row) = (column as int, equation.row as int);
            let x = self.undone(rule, st, mode).x;
            let a = equation.coefficient_of(column);
            stationarity::saved_coefficient(p, equation, column);
            exact::numbers_are_ordered(a, a);
            let d = self.dot(equation.entries@, st.x, Some(column));
            let n = self.difference(mode.shift(equation.bounds.lower), d);
            assert(x[c] == self.quotient(n, a));
            assert(x[c].finite());
            assert(exact::is_quotient(n, a, x[c]));
            self.differences_are_exact(mode.shift(equation.bounds.lower), d);
            self.dots_are_exact(equation.entries@, st.x, Some(column));
            stationarity::weight_is_total(
                p,
                Line::Row(row),
                equation.entries@,
                st.x,
                Some(column),
                p.columns,
            );
            stationarity::total_updated(p, Line::Row(row), st.x, c, x[c], p.columns);
            exact::times_commutes(exact::number(x[c]), exact::number(a), 0 as real);
            assert(exact::times(exact::number(x[c]), exact::number(a)) == exact::number(n)) by {
                reveal(exact::times);
            }
        }
    }

    /// The variable is the offset and the slopes.
    proof fn solution_of_equation(
        p: Program,
        w: Program,
        column: int,
        row: int,
        rhs: real,
        offset: real,
        x: Seq<Real>,
    )
        requires
            solves(p, w, column, row, rhs, offset),
            p.activity(row, x) == rhs,
            x.len() == p.columns,
        ensures
            exact::number(x[column]) == offset + w.total(Line::Row(0), x, p.columns),
    {
        let a = p.a[(row, column)];
        let h = Program { a: p.a.insert((row, column), 0 as real), ..p };
        stationarity::totals_differ_at(
            (p, Line::Row(row)),
            (h, Line::Row(row)),
            column,
            x,
            p.columns,
        );
        let z = Program {
            a: Map::new(|k: (int, int)| true, |k: (int, int)| 0 as real),
            ..p
        };
        assert forall|k: int| 0 <= k < p.columns implies #[trigger] h.at(Line::Row(row), k)
            == z.at(Line::Row(row), k) + exact::times(-a, w.at(Line::Row(0), k)) by {
            exact::times_plain(a, w.a[(0, k)]);
            exact::times_plain(-a, 0 as real);
            if k != column {
                assert(exact::times(a, w.a[(0, k)]) == -p.a[(row, k)]);
            }
        }
        stationarity::totals_combine(
            (h, Line::Row(row)),
            (z, Line::Row(row)),
            (w, Line::Row(0)),
            -a,
            x,
            p.columns,
        );
        Self::nothing(z, row, x, p.columns);
        let (v, t) = (exact::number(x[column]), w.total(Line::Row(0), x, p.columns));
        exact::times_plain(v, v);
        exact::times_plain(a, t);
        exact::times_spreads(offset, t, a);
        exact::times_spreads(offset + t, v, a);
        assert(exact::times(a, offset + t) == exact::times(a, v));
        Self::factors_cancel(a, offset + t, v);
    }

    proof fn nothing(z: Program, row: int, x: Seq<Real>, n: nat)
        requires
            forall|k: int| 0 <= k < n ==> #[trigger] z.at(Line::Row(row), k) == 0 as real,
        ensures
            z.total(Line::Row(row), x, n) == 0 as real,
        decreases n,
    {
        if n > 0 {
            Self::nothing(z, row, x, (n - 1) as nat);
            assert(z.at(Line::Row(row), n - 1) == 0 as real);
            exact::times_plain(exact::number(x[n - 1]), 0 as real);
        }
    }

    proof fn factors_cancel(a: real, b: real, c: real)
        requires
            a != 0 as real,
            exact::times(a, b) == exact::times(a, c),
        ensures
            b == c,
    {
        reveal(exact::times);
        assert(b == c) by (nonlinear_arith)
            requires
                a != 0 as real,
                a * b == a * c,
        ;
    }

    /// The multiplier of the equation balances the column of the variable.
    proof fn multiplier_of_equation(
        &self,
        p: Program,
        rule: Rule,
        st: State,
        mode: Recovery,
        rhs: real,
    ) -> (phi: real)
        requires
            self.exact(),
            p.sizes(st),
            mode.has_multipliers(),
            records_equation(p, rule, mode, rhs),
            stationarity::finite_state(self.undone(rule, st, mode)),
        ensures
            rule matches Rule::Substituted { column, equation, retained, .. } && {
                let (c, row) = (column as int, equation.row as int);
                let back = self.undone(rule, st, mode);
                let a = p.a[(row, c)];
                let was = exact::number(st.y[row]);
                let kept = if retained {
                    was
                } else {
                    0 as real
                };
                &&& back.y == st.y.update(row, back.y[row])
                &&& back.z == st.z.update(c, back.z[c])
                &&& exact::number(back.y[row]) == kept + phi
                &&& exact::number(back.z[c]) == -exact::times(a, kept)
                &&& exact::times(a, phi) == p.gradient(c, back.x, mode) - p.pressure(c, st.y)
                    + exact::times(a, was)
            },
    {
        exact::numbers_are_ordered(zero(), zero());
        if let Rule::Substituted { column, equation, gradient, other_rows, retained } = rule {
            let (c, row) = (column as int, equation.row as int);
            let back = self.undone(rule, st, mode);
            let a = equation.coefficient_of(column);
            stationarity::saved_coefficient(p, equation, column);
            exact::numbers_are_ordered(a, a);
            exact::opposites(a);
            let y = if retained {
                st.y[row]
            } else {
                zero()
            };
            let g = if mode is Solution {
                self.slope(gradient.constant, gradient.terms@, back.x)
            } else {
                zero()
            };
            let d = self.dot(other_rows@, st.y, None);
            let e = self.difference(g, d);
            let q = self.quotient(e, a);
            assert(back.y[row] == self.sum(y, q));
            assert(back.y[row].finite());
            assert(exact::is_sum(y, q, back.y[row]));
            assert(exact::is_quotient(e, a, q));
            self.differences_are_exact(g, d);
            self.dots_are_exact(other_rows@, st.y, None);
            let h = Program { a: p.a.insert((row, c), 0 as real), ..p };
            stationarity::weight_is_total(h, Line::Column(c), other_rows@, st.y, None, p.rows);
            stationarity::totals_differ_at(
                (p, Line::Column(c)),
                (h, Line::Column(c)),
                row,
                st.y,
                p.rows,
            );
            exact::times_plain(exact::number(st.y[row]), 0 as real);
            self.gradients_are_exact(p, gradient.constant, gradient.terms@, c, back.x, mode);
            let phi = exact::number(q);
            assert(exact::times(phi, exact::number(a)) == exact::number(e)) by {
                reveal(exact::times);
            }
            exact::times_commutes(phi, exact::number(a), 0 as real);
            let z = self.product(a.opposite(), y);
            assert(back.z[c] == z);
            assert(back.z[c].finite());
            assert(exact::is_product(a.opposite(), y, z));
            assert(exact::number(z) == exact::times(-exact::number(a), exact::number(y))) by {
                reveal(exact::times);
            }
            exact::times_plain(exact::number(a), exact::number(y));
            phi
        } else {
            0 as real
        }
    }

    /// The derivatives of the smaller problem: those of the larger one, with the
    /// share that goes through the eliminated variable.
    proof fn substituted_gradients(
        p: Program,
        r: Program,
        w: Program,
        column: int,
        row: int,
        rhs: real,
        offset: real,
        retained: bool,
        old: Seq<Real>,
        x: Seq<Real>,
        k: int,
    )
        requires
            solves(p, w, column, row, rhs, offset),
            substituted_out(p, r, w, column, row, offset, retained),
            old.len() == p.columns,
            x == old.update(column, x[column]),
            p.activity(row, x) == rhs,
            0 <= k < p.columns,
            k != column,
        ensures
            r.gradient(k, old, Recovery::Solution) == p.gradient(k, x, Recovery::Solution)
                + exact::times(w.a[(0, k)], p.gradient(column, x, Recovery::Solution)),
    {
        Self::solution_of_equation(p, w, column, row, rhs, offset, x);
        let s = w.a[(0, k)];
        let m = p.q[(k, column)] + exact::times(s, p.q[(column, column)]);
        let line = Line::Curve(k);
        let h = Program { q: r.q.insert((k, column), m), ..r };
        assert(r.q[(k, column)] == 0 as real);
        assert forall|l: int| 0 <= l < p.columns implies #[trigger] h.at(line, l) == p.at(line, l)
            + exact::times(s, p.at(Line::Curve(column), l)) + exact::times(
            m,
            w.at(Line::Row(0), l),
        ) by {
            if l == column {
                exact::times_plain(m, m);
            } else {
                assert(r.q[(k, l)] == h.q[(k, l)]);
            }
        }
        stationarity::totals_combine_two(
            (h, line),
            (p, line),
            (p, Line::Curve(column)),
            s,
            (w, Line::Row(0)),
            m,
            x,
            p.columns,
        );
        stationarity::totals_differ_at((r, line), (h, line), column, x, p.columns);
        stationarity::total_updated(r, line, old, column, x[column], p.columns);
        let (v, t) = (exact::number(x[column]), w.total(Line::Row(0), x, p.columns));
        exact::times_plain(v, v);
        exact::times_plain(exact::number(old[column]), v);
        exact::times_spreads(offset, t, m);
        assert(r.c[k] == p.c[k] + exact::times(s, p.c[column]) + exact::times(m, offset));
        exact::times_spreads(p.c[column], p.total(Line::Curve(column), x, p.columns), s);
    }

    /// The pressure of the rows of the smaller problem.
    proof fn substituted_pressures(
        p: Program,
        r: Program,
        w: Program,
        column: int,
        row: int,
        rhs: real,
        offset: real,
        retained: bool,
        y: Seq<Real>,
        k: int,
    )
        requires
            solves(p, w, column, row, rhs, offset),
            substituted_out(p, r, w, column, row, offset, retained),
            y.len() == p.rows,
            0 <= k < p.columns,
            k != column,
        ensures
            r.pressure(k, y) == p.pressure(k, y) + exact::times(
                w.a[(0, k)],
                p.pressure(column, y),
            ) + exact::times(
                p.a[(row, k)],
                if retained {
                    exact::number(y[row])
                } else {
                    0 as real
                },
            ),
    {
        let s = w.a[(0, k)];
        let a = p.a[(row, column)];
        let line = Line::Column(k);
        let own = p.a[(row, k)] + exact::times(s, a);
        assert(exact::times(a, w.a[(0, k)]) == -p.a[(row, k)]);
        exact::times_commutes(a, s, a);
        assert(own == 0 as real);
        let h = Program { a: r.a.insert((row, k), own), ..r };
        assert(r.a[(row, k)] == (if retained {
            p.a[(row, k)]
        } else {
            0 as real
        }));
        assert forall|i: int| 0 <= i < p.rows implies #[trigger] h.at(line, i) == p.at(line, i)
            + exact::times(s, p.at(Line::Column(column), i)) by {
            if i != row {
                assert(r.a[(i, k)] == h.a[(i, k)]);
            }
        }
        stationarity::totals_combine(
            (h, line),
            (p, line),
            (p, Line::Column(column)),
            s,
            y,
            p.rows,
        );
        stationarity::totals_differ_at((r, line), (h, line), row, y, p.rows);
        let t = exact::number(y[row]);
        exact::times_plain(t, t);
        exact::times_plain(p.a[(row, k)], t);
    }

    /// A variable that an equation gave comes back stationary: it satisfies the
    /// equation, the multiplier of the equation makes its column stationary, and
    /// every other column is as stationary as it was without the variable.
    pub proof fn substituted_variables_come_back_stationary(
        &self,
        p: Program,
        r: Program,
        w: Program,
        rule: Rule,
        st: State,
        mode: Recovery,
        rhs: real,
        offset: real,
        j: int,
    )
        requires
            self.exact(),
            p.sizes(st),
            records_equation(p, rule, mode, rhs),
            rule matches Rule::Substituted { column, equation, retained, .. } && {
                &&& solves(p, w, column as int, equation.row as int, rhs, offset)
                &&& substituted_out(
                    p,
                    r,
                    w,
                    column as int,
                    equation.row as int,
                    offset,
                    retained,
                )
            },
            stationarity::finite_state(self.undone(rule, st, mode)),
            0 <= j < p.columns,
        ensures
            rule matches Rule::Substituted { column, equation, .. } && {
                let back = self.undone(rule, st, mode);
                &&& mode.has_point() ==> p.activity(equation.row as int, back.x) == rhs
                &&& mode.has_multipliers() && j == column ==> p.residual(j, back, mode)
                    == 0 as real
                &&& mode.has_multipliers() && j != column ==> p.residual(j, back, mode)
                    == r.residual(j, st, mode)
            },
    {
        if let Rule::Substituted { column, equation, gradient, other_rows, retained } = rule {
            let (c, row) = (column as int, equation.row as int);
            let back = self.undone(rule, st, mode);
            if mode.has_point() {
                self.equation_holds(p, rule, st, mode, rhs);
            }
            if mode.has_multipliers() {
                let phi = self.multiplier_of_equation(p, rule, st, mode, rhs);
                let a = p.a[(row, c)];
                let was = exact::number(st.y[row]);
                let kept = if retained {
                    was
                } else {
                    0 as real
                };
                let b = p.a[(row, j)];
                stationarity::total_updated(
                    p,
                    Line::Column(j),
                    st.y,
                    row,
                    back.y[row],
                    p.rows,
                );
                exact::times_spreads(kept, phi, b);
                if j != c {
                    Self::substituted_pressures(p, r, w, c, row, rhs, offset, retained, st.y, j);
                    let s = w.a[(0, j)];
                    let (g, t) = (p.gradient(c, back.x, mode), p.pressure(c, st.y));
                    if mode is Solution {
                        Self::substituted_gradients(
                            p,
                            r,
                            w,
                            c,
                            row,
                            rhs,
                            offset,
                            retained,
                            st.x,
                            back.x,
                            j,
                        );
                    } else {
                        exact::times_plain(s, s);
                    }
                    assert(exact::times(a, w.a[(0, j)]) == -b);
                    exact::times_spreads(g - t, exact::times(a, was), s);
                    exact::times_spreads(g, t, s);
                    exact::times_commutes(s, a, phi);
                    exact::times_commutes(s, a, was);
                    exact::times_commutes(a, s, was);
                    exact::times_plain(b, phi);
                    exact::times_plain(b, was);
                    assert(back.z[j] == st.z[j]);
                }
            }
        }
    }
}

/// A problem and the problem in which a variable was shifted along a row:
/// `x_column = s + slope x_other + offset`, where `pivot s` is what the row has to
/// spare. The row is gone, and `other` took its share of the column.
pub open spec fn shifted_out(
    p: Program,
    r: Program,
    column: int,
    other: int,
    row: int,
    pivot: real,
    slope: real,
) -> bool {
    &&& r.columns == p.columns && r.rows == p.rows && r.q == p.q
    &&& 0 <= column < p.columns && 0 <= other < p.columns && column != other && 0 <= row < p.rows
    &&& pivot != 0 as real
    &&& forall|k: int| 0 <= k < p.columns ==> #[trigger] p.q[(k, column)] == 0 as real
    &&& forall|k: int| 0 <= k < p.columns ==> #[trigger] p.q[(column, k)] == 0 as real
    &&& forall|k: int|
        0 <= k < p.columns ==> #[trigger] r.c[k] == p.c[k] + (if k == other {
            exact::times(slope, p.c[column])
        } else {
            0 as real
        })
    &&& forall|k: int|
        0 <= k < p.columns ==> #[trigger] p.a[(row, k)] == (if k == column {
            pivot
        } else if k == other {
            -exact::times(slope, pivot)
        } else {
            0 as real
        })
    &&& forall|i: int, k: int|
        0 <= i < p.rows && 0 <= k < p.columns ==> #[trigger] r.a[(i, k)] == (if i == row {
            0 as real
        } else if k == other {
            p.a[(i, k)] + exact::times(slope, p.a[(i, column)])
        } else {
            p.a[(i, k)]
        })
}

impl<
    P: Fn(Real, Real) -> Real,
    T: Fn(Real, Real) -> Real,
    D: Fn(Real, Real) -> Real,
    H: Fn(Real, Real) -> Real,
> Arithmetic<P, T, D, H> {
    /// The pressure on a column of the shifted problem, without the row that is gone.
    proof fn shifted_pressures(
        p: Program,
        r: Program,
        column: int,
        other: int,
        row: int,
        pivot: real,
        slope: real,
        y: Seq<Real>,
        j: int,
    )
        requires
            shifted_out(p, r, column, other, row, pivot, slope),
            y.len() == p.rows,
            0 <= j < p.columns,
        ensures
            ({
                let t = exact::number(y[row]);
                let rest = p.pressure(j, y) - exact::times(p.a[(row, j)], t);
                let share = p.pressure(column, y) - exact::times(pivot, t);
                r.pressure(j, y) == rest + (if j == other {
                    exact::times(slope, share)
                } else {
                    0 as real
                })
            }),
    {
        let line = Line::Column(j);
        let t = exact::number(y[row]);
        exact::times_plain(t, t);
        assert(r.a[(row, j)] == 0 as real);
        assert(p.a[(row, column)] == pivot);
        if j == other {
            let own = p.a[(row, j)] + exact::times(slope, pivot);
            let h = Program { a: r.a.insert((row, j), own), ..r };
            assert(p.a[(row, other)] == -exact::times(slope, pivot));
            assert forall|i: int| 0 <= i < p.rows implies #[trigger] h.at(line, i) == p.at(line, i)
                + exact::times(slope, p.at(Line::Column(column), i)) by {
                if i != row {
                    assert(r.a[(i, j)] == h.a[(i, j)]);
                }
            }
            stationarity::totals_combine(
                (h, line),
                (p, line),
                (p, Line::Column(column)),
                slope,
                y,
                p.rows,
            );
            stationarity::totals_differ_at((r, line), (h, line), row, y, p.rows);
            exact::times_spreads(p.pressure(column, y), exact::times(pivot, t), slope);
            exact::times_commutes(slope, pivot, t);
            exact::times_plain(exact::times(slope, pivot), t);
        } else {
            assert forall|i: int| 0 <= i < p.rows && i != row implies #[trigger] r.at(line, i)
                == p.at(line, i) by {
                assert(r.a[(i, j)] == p.a[(i, j)]);
            }
            stationarity::totals_differ_at((r, line), (p, line), row, y, p.rows);
        }
    }

    /// A shifted variable comes back: its row has `pivot s` to spare over the side
    /// that gave the offset, the row takes the multiplier of the bound, and where
    /// the columns were stationary they are.
    pub proof fn shifted_variables_come_back_stationary(
        &self,
        p: Program,
        r: Program,
        rule: Rule,
        st: State,
        mode: Recovery,
        j: int,
    )
        requires
            self.exact(),
            p.sizes(st),
            rule matches Rule::BoundShift { column, other, row, pivot, slope, offset } && {
                &&& pivot.finite() && slope.finite()
                &&& shifted_out(
                    p,
                    r,
                    column as int,
                    other as int,
                    row as int,
                    exact::number(pivot),
                    exact::number(slope),
                )
            },
            stationarity::finite_state(st),
            stationarity::finite_state(self.undone(rule, st, mode)),
            0 <= j < p.columns,
        ensures
            rule matches Rule::BoundShift { column, other, row, pivot, slope, offset } && {
                let back = self.undone(rule, st, mode);
                let c = column as int;
                &&& mode.has_point() ==> exact::number(back.x[c]) == exact::number(st.x[c])
                    + exact::times(exact::number(slope), exact::number(st.x[other as int]))
                    + exact::number(mode.shift(offset))
                &&& mode.has_point() ==> p.activity(row as int, back.x) == exact::times(
                    exact::number(pivot),
                    exact::number(st.x[c]) + exact::number(mode.shift(offset)),
                )
                &&& mode.has_multipliers() ==> p.residual(j, back, mode) == r.residual(j, st, mode)
                    - (if j == other {
                    exact::times(exact::number(slope), r.residual(c, st, mode))
                } else {
                    0 as real
                })
            },
    {
        exact::numbers_are_ordered(zero(), zero());
        if let Rule::BoundShift { column, other, row, pivot, slope, offset } = rule {
            let back = self.undone(rule, st, mode);
            let (c, o, w) = (column as int, other as int, row as int);
            let (m, k) = (exact::number(pivot), exact::number(slope));
            exact::numbers_are_ordered(pivot, pivot);
            let (xc, xo) = (exact::number(st.x[c]), exact::number(st.x[o]));
            if mode.has_point() {
                let term = self.product(slope, st.x[o]);
                let first = self.sum(st.x[c], term);
                assert(back.x[c] == self.sum(first, mode.shift(offset)));
                assert(back.x[c].finite());
                assert(exact::is_sum(first, mode.shift(offset), back.x[c]));
                assert(exact::is_sum(st.x[c], term, first));
                assert(exact::is_product(slope, st.x[o], term));
                assert(exact::number(term) == exact::times(k, xo)) by {
                    reveal(exact::times);
                }
                Self::row_of_two(p, w, c, o, back.x, p.columns);
                assert(p.a[(w, c)] == m);
                assert(p.a[(w, o)] == -exact::times(k, m));
                let f = exact::number(mode.shift(offset));
                exact::times_spreads(xc + exact::times(k, xo), f, m);
                exact::times_spreads(xc, exact::times(k, xo), m);
                exact::times_spreads(xc, f, m);
                exact::times_commutes(m, k, xo);
                exact::times_commutes(k, m, xo);
                exact::times_plain(exact::times(k, m), xo);
                assert(back.x[o] == st.x[o]);
            }
            if mode.has_multipliers() {
                let q = self.quotient(st.z[c], pivot);
                assert(back.y[w] == q);
                assert(back.y[w].finite());
                assert(exact::is_quotient(st.z[c], pivot, q));
                let (zc, n) = (exact::number(st.z[c]), exact::number(q));
                assert(exact::times(n, m) == zc) by {
                    reveal(exact::times);
                }
                exact::times_commutes(n, m, 0 as real);
                Self::shifted_pressures(p, r, c, o, w, m, k, st.y, j);
                Self::shifted_pressures(p, r, c, o, w, m, k, st.y, c);
                stationarity::total_updated(p, Line::Column(j), st.y, w, q, p.rows);
                assert(p.a[(w, j)] == (if j == c {
                    m
                } else if j == o {
                    -exact::times(k, m)
                } else {
                    0 as real
                }));
                let t = exact::number(st.y[w]);
                exact::times_plain(n, n);
                exact::times_plain(t, t);
                exact::times_plain(exact::times(k, m), n);
                exact::times_plain(exact::times(k, m), t);
                exact::times_commutes(k, m, n);
                exact::times_commutes(k, m, t);
                if mode is Solution {
                    Self::flat_columns(p, r, c, st.x, back.x, j);
                    Self::flat_columns(p, r, c, st.x, back.x, c);
                    assert(r.c[j] == p.c[j] + (if j == o {
                        exact::times(k, p.c[c])
                    } else {
                        0 as real
                    }));
                    assert(r.c[c] == p.c[c]);
                    Self::flat_line(r, c, st.x, p.columns);
                }
                let share = p.pressure(c, st.y) - exact::times(m, t);
                let d = r.gradient(c, st.x, mode);
                exact::times_spreads(d - share, zc, k);
                exact::times_spreads(d, share, k);
                exact::times_plain(k, k);
            }
        }
    }

    /// A variable without curvature leaves every derivative as it is.
    proof fn flat_columns(
        p: Program,
        r: Program,
        c: int,
        old: Seq<Real>,
        x: Seq<Real>,
        j: int,
    )
        requires
            r.q == p.q,
            r.columns == p.columns,
            old.len() == p.columns,
            0 <= c < p.columns,
            0 <= j < p.columns,
            x == old.update(c, x[c]),
            forall|k: int| 0 <= k < p.columns ==> #[trigger] p.q[(k, c)] == 0 as real,
        ensures
            p.total(Line::Curve(j), x, p.columns) == r.total(Line::Curve(j), old, p.columns),
    {
        stationarity::totals_differ_at(
            (p, Line::Curve(j)),
            (r, Line::Curve(j)),
            -1,
            old,
            p.columns,
        );
        stationarity::total_updated(p, Line::Curve(j), old, c, x[c], p.columns);
        assert(p.q[(j, c)] == 0 as real);
        exact::times_plain(exact::number(x[c]), 0 as real);
        exact::times_plain(exact::number(old[c]), 0 as real);
    }

    /// A variable without curvature has the same derivative everywhere.
    proof fn flat_line(p: Program, c: int, x: Seq<Real>, n: nat)
        requires
            forall|k: int| 0 <= k < n ==> #[trigger] p.q[(c, k)] == 0 as real,
        ensures
            p.total(Line::Curve(c), x, n) == 0 as real,
        decreases n,
    {
        if n > 0 {
            Self::flat_line(p, c, x, (n - 1) as nat);
            assert(p.q[(c, n - 1)] == 0 as real);
            exact::times_plain(exact::number(x[n - 1]), 0 as real);
        }
    }

    /// The activity of a row of two entries.
    proof fn row_of_two(p: Program, row: int, c: int, o: int, x: Seq<Real>, n: nat)
        requires
            c != o,
            0 <= c,
            0 <= o,
            forall|k: int|
                0 <= k < n && k != c && k != o ==> #[trigger] p.a[(row, k)] == 0 as real,
        ensures
            p.total(Line::Row(row), x, n) == (if c < n {
                exact::times(p.a[(row, c)], exact::number(x[c]))
            } else {
                0 as real
            }) + (if o < n {
                exact::times(p.a[(row, o)], exact::number(x[o]))
            } else {
                0 as real
            }),
        decreases n,
    {
        if n > 0 {
            Self::row_of_two(p, row, c, o, x, (n - 1) as nat);
            if n - 1 != c && n - 1 != o {
                assert(p.a[(row, n - 1)] == 0 as real);
                exact::times_plain(exact::number(x[n - 1]), 0 as real);
            }
        }
    }
}

/// One column is a multiple of another, in the rows and in the objective.
pub open spec fn parallel_in(p: Program, keep: int, removed: int, ratio: real) -> bool {
    &&& 0 <= keep < p.columns && 0 <= removed < p.columns && keep != removed
    &&& p.c[removed] == exact::times(ratio, p.c[keep])
    &&& forall|i: int|
        0 <= i < p.rows ==> #[trigger] p.a[(i, removed)] == exact::times(ratio, p.a[(i, keep)])
    &&& forall|k: int|
        0 <= k < p.columns ==> #[trigger] p.q[(removed, k)] == exact::times(ratio, p.q[(keep, k)])
    &&& forall|k: int|
        0 <= k < p.columns ==> #[trigger] p.q[(k, removed)] == exact::times(ratio, p.q[(k, keep)])
}

/// A problem and the problem without a column.
pub open spec fn column_dropped(p: Program, r: Program, column: int) -> bool {
    &&& r.columns == p.columns && r.rows == p.rows && r.c == p.c
    &&& forall|j: int, k: int|
        0 <= j < p.columns && 0 <= k < p.columns ==> #[trigger] r.q[(j, k)] == (if k == column {
            0 as real
        } else {
            p.q[(j, k)]
        })
    &&& forall|i: int, k: int|
        0 <= i < p.rows && 0 <= k < p.columns ==> #[trigger] r.a[(i, k)] == (if k == column {
            0 as real
        } else {
            p.a[(i, k)]
        })
}

impl<
    P: Fn(Real, Real) -> Real,
    T: Fn(Real, Real) -> Real,
    D: Fn(Real, Real) -> Real,
    H: Fn(Real, Real) -> Real,
> Arithmetic<P, T, D, H> {
    /// A line in which one coefficient is a multiple of another sees the sum alone.
    proof fn split_lines(
        p: Program,
        r: Program,
        line: Line,
        keep: int,
        removed: int,
        ratio: real,
        old: Seq<Real>,
        x: Seq<Real>,
        n: nat,
    )
        requires
            0 <= keep < n,
            0 <= removed < n,
            keep != removed,
            old.len() == n,
            x.len() == n,
            forall|k: int| 0 <= k < n && k != keep && k != removed ==> #[trigger] x[k] == old[k],
            exact::number(x[keep]) + exact::times(ratio, exact::number(x[removed]))
                == exact::number(old[keep]),
            p.at(line, removed) == exact::times(ratio, p.at(line, keep)),
            r.at(line, removed) == 0 as real,
            forall|k: int| 0 <= k < n && k != removed ==> #[trigger] r.at(line, k) == p.at(line, k),
        ensures
            p.total(line, x, n) == r.total(line, old, n),
    {
        assert(x =~= old.update(keep, x[keep]).update(removed, x[removed]));
        let half = old.update(keep, x[keep]);
        stationarity::totals_differ_at((p, line), (r, line), removed, x, n);
        stationarity::total_updated(r, line, old, keep, x[keep], n);
        stationarity::total_updated(r, line, half, removed, x[removed], n);
        let (a, u, v) = (p.at(line, keep), exact::number(x[keep]), exact::number(x[removed]));
        assert(r.at(line, keep) == a);
        exact::times_plain(v, v);
        exact::times_plain(exact::number(half[removed]), v);
        exact::times_spreads(u, exact::times(ratio, v), a);
        exact::times_commutes(a, ratio, v);
        exact::times_commutes(ratio, a, v);
    }

    /// Two parallel columns that one stood for come back with the same rows and the
    /// same stationarity: the shares add up to the sum, every row has the activity
    /// that it had, and the column that was removed is as stationary as the other,
    /// times the ratio.
    pub proof fn merged_columns_come_back_stationary(
        &self,
        p: Program,
        r: Program,
        rule: Rule,
        st: State,
        mode: Recovery,
        i: int,
        j: int,
    )
        requires
            self.exact(),
            p.sizes(st),
            rule matches Rule::ParallelColumns { keep, removed, ratio, .. } && {
                &&& parallel_in(p, keep as int, removed as int, exact::number(ratio))
                &&& column_dropped(p, r, removed as int)
            },
            stationarity::finite_state(st),
            stationarity::finite_state(self.undone(rule, st, mode)),
            0 <= i < p.rows,
            0 <= j < p.columns,
        ensures
            rule matches Rule::ParallelColumns { keep, removed, ratio, .. } && {
                let back = self.undone(rule, st, mode);
                &&& mode.has_point() ==> exact::number(back.x[keep as int]) + exact::times(
                    exact::number(ratio),
                    exact::number(back.x[removed as int]),
                ) == exact::number(st.x[keep as int])
                &&& mode.has_point() ==> p.activity(i, back.x) == r.activity(i, st.x)
                &&& mode.has_multipliers() && j != removed ==> p.residual(j, back, mode)
                    == r.residual(j, st, mode)
                &&& mode.has_multipliers() ==> p.residual(removed as int, back, mode)
                    == exact::times(
                    exact::number(ratio),
                    p.residual(keep as int, back, mode),
                )
            },
    {
        if let Rule::ParallelColumns { keep, removed, ratio, keep_bounds, removed_bounds } = rule {
            let back = self.undone(rule, st, mode);
            let (a, d, m) = (keep as int, removed as int, exact::number(ratio));
            if mode.has_point() {
                let other = back.x[d];
                let term = self.product(ratio, other);
                assert(back.x[a] == self.difference(st.x[a], term));
                assert(back.x[a].finite());
                self.differences_are_exact(st.x[a], term);
                assert(exact::is_product(ratio, other, term));
                assert(exact::number(term) == exact::times(m, exact::number(other))) by {
                    reveal(exact::times);
                }
                assert forall|k: int| 0 <= k < p.columns && k != d implies #[trigger] r.at(
                    Line::Row(i),
                    k,
                ) == p.at(Line::Row(i), k) by {
                    assert(r.a[(i, k)] == p.a[(i, k)]);
                }
                assert(r.a[(i, d)] == 0 as real);
                assert(p.a[(i, d)] == exact::times(m, p.a[(i, a)]));
                Self::split_lines(p, r, Line::Row(i), a, d, m, st.x, back.x, p.columns);
            }
            if mode.has_multipliers() {
                let z = self.product(ratio, st.z[a]);
                assert(back.z[d] == z);
                assert(back.z[d].finite());
                assert(exact::is_product(ratio, st.z[a], z));
                assert(exact::number(z) == exact::times(m, exact::number(st.z[a]))) by {
                    reveal(exact::times);
                }
                if mode is Solution {
                    assert forall|k: int| 0 <= k < p.columns && k != d implies #[trigger] r.at(
                        Line::Curve(j),
                        k,
                    ) == p.at(Line::Curve(j), k) by {
                        assert(r.q[(j, k)] == p.q[(j, k)]);
                    }
                    assert(r.q[(j, d)] == 0 as real);
                    assert(p.q[(j, d)] == exact::times(m, p.q[(j, a)]));
                    Self::split_lines(p, r, Line::Curve(j), a, d, m, st.x, back.x, p.columns);
                }
                if j != d {
                    assert forall|k: int| 0 <= k < p.rows && k != -1 implies #[trigger] p.at(
                        Line::Column(j),
                        k,
                    ) == r.at(Line::Column(j), k) by {
                        assert(r.a[(k, j)] == p.a[(k, j)]);
                    }
                    stationarity::totals_differ_at(
                        (p, Line::Column(j)),
                        (r, Line::Column(j)),
                        -1,
                        st.y,
                        p.rows,
                    );
                    assert(back.z[j] == st.z[j]);
                }
                Self::multiples(p, Line::Column(d), Line::Column(a), m, st.y, p.rows);
                let (s, t) = (p.pressure(a, st.y), exact::number(st.z[a]));
                assert(back.z[a] == st.z[a]);
                let g = p.gradient(a, back.x, mode);
                exact::times_spreads(g - s, t, m);
                exact::times_spreads(g, s, m);
                exact::times_plain(m, m);
                if mode is Solution {
                    Self::multiples(p, Line::Curve(d), Line::Curve(a), m, back.x, p.columns);
                    exact::times_spreads(
                        p.c[a],
                        p.total(Line::Curve(a), back.x, p.columns),
                        m,
                    );
                }
            }
        }
    }

    proof fn multiples(p: Program, f: Line, g: Line, m: real, v: Seq<Real>, n: nat)
        requires
            forall|k: int| 0 <= k < n ==> #[trigger] p.at(f, k) == exact::times(m, p.at(g, k)),
        ensures
            p.total(f, v, n) == exact::times(m, p.total(g, v, n)),
        decreases n,
    {
        if n > 0 {
            Self::multiples(p, f, g, m, v, (n - 1) as nat);
            let (a, t) = (p.at(g, n - 1), exact::number(v[n - 1]));
            assert(p.at(f, n - 1) == exact::times(m, a));
            exact::times_commutes(m, a, t);
            exact::times_spreads(p.total(g, v, (n - 1) as nat), exact::times(a, t), m);
        } else {
            exact::times_plain(m, m);
        }
    }
}

} // verus!
