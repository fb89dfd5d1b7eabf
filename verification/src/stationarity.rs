//! What the way back means for the problem: the rows and the stationarity of the
//! problem before a rule, at the point that undoing the rule gives.

use crate::arithmetic::Arithmetic;
use crate::exact;
use crate::merge;
use crate::number::{zero, Real};
use crate::tape::{Equation, Recovery, Rule, State};
use vstd::prelude::*;

verus! {

/// A quadratic program with linear rows: costs, a symmetric matrix and the
/// coefficients of the rows, by row and column.
pub ghost struct Program {
    pub columns: nat,
    pub rows: nat,
    pub c: Map<int, real>,
    pub q: Map<(int, int), real>,
    pub a: Map<(int, int), real>,
}

/// A line of a program: the coefficients of a row, those of a column, or the second
/// derivatives by a variable.
pub ghost enum Line {
    Row(int),
    Column(int),
    Curve(int),
}

impl Program {
    /// Coefficient `k` of a line.
    pub open spec fn at(self, line: Line, k: int) -> real {
        match line {
            Line::Row(i) => self.a[(i, k)],
            Line::Column(j) => self.a[(k, j)],
            Line::Curve(j) => self.q[(j, k)],
        }
    }

    /// Coefficients times values, added up over the first `n` places of a line.
    pub open spec fn total(self, line: Line, v: Seq<Real>, n: nat) -> real
        decreases n,
    {
        if n == 0 {
            0 as real
        } else {
            self.total(line, v, (n - 1) as nat) + exact::times(
                self.at(line, n - 1),
                exact::number(v[n - 1]),
            )
        }
    }

    /// The activity of row `i`.
    pub open spec fn activity(self, i: int, x: Seq<Real>) -> real {
        self.total(Line::Row(i), x, self.columns)
    }

    /// The derivative of the objective by variable `j`; certificates have none.
    pub open spec fn gradient(self, j: int, x: Seq<Real>, mode: Recovery) -> real {
        if mode is Solution {
            self.c[j] + self.total(Line::Curve(j), x, self.columns)
        } else {
            0 as real
        }
    }

    /// What the rows press on variable `j`.
    pub open spec fn pressure(self, j: int, y: Seq<Real>) -> real {
        self.total(Line::Column(j), y, self.rows)
    }

    /// What is left of the stationarity of variable `j`: the derivative without the
    /// multipliers of the rows and of the bounds.
    pub open spec fn residual(self, j: int, st: State, mode: Recovery) -> real {
        self.gradient(j, st.x, mode) - self.pressure(j, st.y) - exact::number(st.z[j])
    }

    /// The sizes of a point are those of the program.
    pub open spec fn sizes(self, st: State) -> bool {
        st.x.len() == self.columns && st.z.len() == self.columns && st.y.len() == self.rows
    }

    /// Entries that list a line: in order, and without coefficients that are zero.
    pub open spec fn lists(self, line: Line, entries: Seq<(usize, Real)>, n: nat) -> bool {
        &&& merge::increasing(entries)
        &&& forall|k: int|
            0 <= k < entries.len() ==> (#[trigger] entries[k]).0 < n && self.at(
                line,
                entries[k].0 as int,
            ) == exact::number(entries[k].1) && entries[k].1.finite()
        &&& forall|j: int|
            0 <= j < n && !listed(entries, j) ==> #[trigger] self.at(line, j) == 0 as real
    }
}

/// An index is one of the entries.
pub open spec fn listed(entries: Seq<(usize, Real)>, j: int) -> bool {
    exists|k: int| 0 <= k < entries.len() && (#[trigger] entries[k]).0 == j
}

/// All numbers are finite.
pub open spec fn finite(v: Seq<Real>) -> bool {
    forall|k: int| 0 <= k < v.len() ==> (#[trigger] v[k]).finite()
}

pub open spec fn finite_state(st: State) -> bool {
    finite(st.x) && finite(st.y) && finite(st.z)
}

/// A sum over a list without one index is the sum without that index.
pub(crate) proof fn weight_is_total(
    p: Program,
    line: Line,
    entries: Seq<(usize, Real)>,
    v: Seq<Real>,
    exclude: Option<usize>,
    n: nat,
)
    requires
        p.lists(line, entries, n),
    ensures
        exact::weight(entries, v, exclude) == p.total(line, v, n) - (match exclude {
            Some(j) => if j < n {
                exact::times(p.at(line, j as int), exact::number(v[j as int]))
            } else {
                0 as real
            },
            None => 0 as real,
        }),
    decreases n,
{
    if n == 0 {
        if entries.len() > 0 {
            assert(entries[0].0 < n);
        }
    } else {
        let (m, last) = ((n - 1) as nat, n - 1);
        let t = exact::number(v[last]);
        exact::times_plain(t, t);
        let e = entries.len() - 1;
        if entries.len() > 0 && entries.last().0 == last {
            let less = entries.drop_last();
            assert(entries[e].0 < n);
            assert forall|k: int| 0 <= k < less.len() implies (#[trigger] less[k]).0 < m && p.at(
                line,
                less[k].0 as int,
            ) == exact::number(less[k].1) && less[k].1.finite() by {
                assert(entries[k].0 < entries[e].0);
            }
            assert forall|j: int| 0 <= j < m && !listed(less, j) implies #[trigger] p.at(line, j)
                == 0 as real by {
                if listed(entries, j) {
                    let k = choose|k: int| 0 <= k < entries.len() && (#[trigger] entries[k]).0 == j;
                    assert(less[k].0 == j);
                }
            }
            assert(merge::increasing(less)) by {
                assert forall|a: int, b: int| 0 <= a < b < less.len() implies (
                #[trigger] less[a]).0 < (#[trigger] less[b]).0 by {
                    assert(entries[a].0 < entries[b].0);
                }
            }
            weight_is_total(p, line, less, v, exclude, m);
        } else {
            assert forall|k: int| 0 <= k < entries.len() implies (#[trigger] entries[k]).0 < m by {
                assert(entries[e].0 < n);
                if k < e {
                    assert(entries[k].0 < entries[e].0);
                }
            }
            assert(!listed(entries, last));
            assert(p.at(line, last) == 0 as real);
            assert(p.lists(line, entries, m));
            weight_is_total(p, line, entries, v, exclude, m);
        }
    }
}

/// A sum is linear in its coefficients.
pub(crate) proof fn totals_combine(
    f: (Program, Line),
    g: (Program, Line),
    h: (Program, Line),
    s: real,
    v: Seq<Real>,
    n: nat,
)
    requires
        forall|k: int|
            0 <= k < n ==> #[trigger] f.0.at(f.1, k) == g.0.at(g.1, k) + exact::times(
                s,
                h.0.at(h.1, k),
            ),
    ensures
        f.0.total(f.1, v, n) == g.0.total(g.1, v, n) + exact::times(s, h.0.total(h.1, v, n)),
    decreases n,
{
    if n > 0 {
        totals_combine(f, g, h, s, v, (n - 1) as nat);
        let k = n - 1;
        assert(f.0.at(f.1, k) == g.0.at(g.1, k) + exact::times(s, h.0.at(h.1, k)));
        let (a, b, t) = (g.0.at(g.1, k), h.0.at(h.1, k), exact::number(v[k]));
        let q = h.0.total(h.1, v, k as nat);
        exact::times_spreads(a, exact::times(s, b), t);
        exact::times_commutes(s, b, t);
        exact::times_spreads(q, exact::times(b, t), s);
    } else {
        exact::times_plain(s, s);
    }
}

/// A sum is linear in its coefficients, with two shares.
pub(crate) proof fn totals_combine_two(
    f: (Program, Line),
    g: (Program, Line),
    h: (Program, Line),
    s: real,
    u: (Program, Line),
    t: real,
    v: Seq<Real>,
    n: nat,
)
    requires
        forall|k: int|
            0 <= k < n ==> #[trigger] f.0.at(f.1, k) == g.0.at(g.1, k) + exact::times(
                s,
                h.0.at(h.1, k),
            ) + exact::times(t, u.0.at(u.1, k)),
    ensures
        f.0.total(f.1, v, n) == g.0.total(g.1, v, n) + exact::times(s, h.0.total(h.1, v, n))
            + exact::times(t, u.0.total(u.1, v, n)),
    decreases n,
{
    if n > 0 {
        totals_combine_two(f, g, h, s, u, t, v, (n - 1) as nat);
        let k = n - 1;
        let (a, b, c, x) = (
            g.0.at(g.1, k),
            h.0.at(h.1, k),
            u.0.at(u.1, k),
            exact::number(v[k]),
        );
        assert(f.0.at(f.1, k) == a + exact::times(s, b) + exact::times(t, c));
        exact::times_spreads(a + exact::times(s, b), exact::times(t, c), x);
        exact::times_spreads(a, exact::times(s, b), x);
        exact::times_commutes(s, b, x);
        exact::times_commutes(t, c, x);
        exact::times_spreads(h.0.total(h.1, v, k as nat), exact::times(b, x), s);
        exact::times_spreads(u.0.total(u.1, v, k as nat), exact::times(c, x), t);
    } else {
        exact::times_plain(s, s);
        exact::times_plain(t, t);
    }
}

/// Sums with the same coefficients, but for one.
pub(crate) proof fn totals_differ_at(
    f: (Program, Line),
    g: (Program, Line),
    i: int,
    v: Seq<Real>,
    n: nat,
)
    requires
        forall|k: int| 0 <= k < n && k != i ==> #[trigger] f.0.at(f.1, k) == g.0.at(g.1, k),
    ensures
        f.0.total(f.1, v, n) == g.0.total(g.1, v, n) + (if 0 <= i < n {
            exact::times(f.0.at(f.1, i), exact::number(v[i])) - exact::times(
                g.0.at(g.1, i),
                exact::number(v[i]),
            )
        } else {
            0 as real
        }),
    decreases n,
{
    if n > 0 {
        totals_differ_at(f, g, i, v, (n - 1) as nat);
        if n - 1 != i {
            assert(f.0.at(f.1, n - 1) == g.0.at(g.1, n - 1));
        }
    }
}

/// A sum after one value changed.
pub(crate) proof fn total_updated(p: Program, line: Line, v: Seq<Real>, i: int, w: Real, n: nat)
    requires
        0 <= i < v.len(),
        n <= v.len(),
    ensures
        p.total(line, v.update(i, w), n) == p.total(line, v, n) + (if i < n {
            exact::times(p.at(line, i), exact::number(w)) - exact::times(
                p.at(line, i),
                exact::number(v[i]),
            )
        } else {
            0 as real
        }),
    decreases n,
{
    if n > 0 {
        total_updated(p, line, v, i, w, (n - 1) as nat);
    }
}

impl<
    P: Fn(Real, Real) -> Real,
    T: Fn(Real, Real) -> Real,
    D: Fn(Real, Real) -> Real,
    H: Fn(Real, Real) -> Real,
> Arithmetic<P, T, D, H> {
    /// A derivative is the constant and the terms.
    pub(crate) proof fn slopes_are_exact(&self, constant: Real, terms: Seq<(usize, Real)>, x: Seq<Real>)
        requires
            self.exact(),
            self.slope(constant, terms, x).finite(),
        ensures
            exact::number(self.slope(constant, terms, x)) == exact::number(constant)
                + exact::weight(terms, x, None),
        decreases terms.len(),
    {
        if terms.len() > 0 {
            reveal(exact::times);
            let before = self.slope(constant, terms.drop_last(), x);
            let term = self.product(terms.last().1, x[terms.last().0 as int]);
            assert(exact::is_sum(before, term, self.sum(before, term)));
            assert(exact::is_product(terms.last().1, x[terms.last().0 as int], term));
            self.slopes_are_exact(constant, terms.drop_last(), x);
        }
    }

    /// A derivative by the entries of a line of the program.
    pub(crate) proof fn gradients_are_exact(
        &self,
        p: Program,
        constant: Real,
        terms: Seq<(usize, Real)>,
        j: int,
        x: Seq<Real>,
        mode: Recovery,
    )
        requires
            self.exact(),
            exact::number(constant) == p.c[j],
            p.lists(Line::Curve(j), terms, p.columns),
            mode is Solution ==> self.slope(constant, terms, x).finite(),
        ensures
            exact::number(
                if mode is Solution {
                    self.slope(constant, terms, x)
                } else {
                    zero()
                },
            ) == p.gradient(j, x, mode),
    {
        exact::numbers_are_ordered(zero(), zero());
        if mode is Solution {
            self.slopes_are_exact(constant, terms, x);
            weight_is_total(p, Line::Curve(j), terms, x, None, p.columns);
        }
    }
}

/// A problem and the problem without a variable that is fixed: its costs and its
/// share of every row are constant.
pub open spec fn fixed_out(p: Program, r: Program, column: int, value: real) -> bool {
    &&& r.columns == p.columns && r.rows == p.rows && 0 <= column < p.columns
    &&& forall|j: int|
        0 <= j < p.columns && j != column ==> #[trigger] r.c[j] == p.c[j] + exact::times(
            p.q[(j, column)],
            value,
        )
    &&& forall|j: int, k: int|
        0 <= j < p.columns && 0 <= k < p.columns && j != column ==> #[trigger] r.q[(j, k)] == (
        if k == column {
            0 as real
        } else {
            p.q[(j, k)]
        })
    &&& forall|i: int, j: int|
        0 <= i < p.rows && 0 <= j < p.columns ==> #[trigger] r.a[(i, j)] == (if j == column {
            0 as real
        } else {
            p.a[(i, j)]
        })
}

impl<
    P: Fn(Real, Real) -> Real,
    T: Fn(Real, Real) -> Real,
    D: Fn(Real, Real) -> Real,
    H: Fn(Real, Real) -> Real,
> Arithmetic<P, T, D, H> {
    /// The multiplier of a fixed variable makes its column stationary.
    proof fn fixed_column_is_stationary(&self, p: Program, rule: Rule, st: State, mode: Recovery)
        requires
            self.exact(),
            p.sizes(st),
            mode.has_multipliers(),
            rule matches Rule::Fixed { column, gradient, entries, .. } && {
                &&& column < p.columns
                &&& exact::number(gradient.constant) == p.c[column as int]
                &&& p.lists(Line::Curve(column as int), gradient.terms@, p.columns)
                &&& p.lists(Line::Column(column as int), entries@, p.rows)
            },
            finite_state(self.undone(rule, st, mode)),
        ensures
            p.residual(rule->Fixed_column as int, self.undone(rule, st, mode), mode) == 0 as real,
    {
        let back = self.undone(rule, st, mode);
        if let Rule::Fixed { column, value, gradient, entries } = rule {
            let c = column as int;
            let g = if mode is Solution {
                self.slope(gradient.constant, gradient.terms@, back.x)
            } else {
                zero()
            };
            let d = self.dot(entries@, st.y, None);
            assert(back.z[c] == self.difference(g, d));
            assert(back.z[c].finite());
            self.differences_are_exact(g, d);
            self.dots_are_exact(entries@, st.y, None);
            weight_is_total(p, Line::Column(c), entries@, st.y, None, p.rows);
            self.gradients_are_exact(p, gradient.constant, gradient.terms@, c, back.x, mode);
        }
    }

    /// Another column is as stationary as it was without the variable.
    proof fn fixing_keeps_other_columns(
        &self,
        p: Program,
        r: Program,
        rule: Rule,
        st: State,
        mode: Recovery,
        j: int,
    )
        requires
            p.sizes(st),
            mode.has_multipliers(),
            rule matches Rule::Fixed { column, value, .. } && fixed_out(
                p,
                r,
                column as int,
                exact::number(mode.shift(value)),
            ),
            0 <= j < p.columns,
            j != rule->Fixed_column,
        ensures
            p.residual(j, self.undone(rule, st, mode), mode) == r.residual(j, st, mode),
    {
        let back = self.undone(rule, st, mode);
        let c = rule->Fixed_column as int;
        let v = exact::number(mode.shift(rule->Fixed_value));
        assert forall|k: int| 0 <= k < p.rows && k != -1 implies #[trigger] p.at(Line::Column(j), k)
            == r.at(Line::Column(j), k) by {
            assert(r.a[(k, j)] == p.a[(k, j)]);
        }
        totals_differ_at((p, Line::Column(j)), (r, Line::Column(j)), -1, st.y, p.rows);
        if mode is Solution {
            assert forall|k: int| 0 <= k < p.columns && k != c implies #[trigger] p.at(
                Line::Curve(j),
                k,
            ) == r.at(Line::Curve(j), k) by {
                assert(r.q[(j, k)] == p.q[(j, k)]);
            }
            assert(r.q[(j, c)] == 0 as real);
            assert(r.c[j] == p.c[j] + exact::times(p.q[(j, c)], v));
            totals_differ_at((p, Line::Curve(j)), (r, Line::Curve(j)), c, back.x, p.columns);
            total_updated(r, Line::Curve(j), st.x, c, back.x[c], p.columns);
            exact::times_plain(exact::number(back.x[c]), v);
            exact::times_plain(exact::number(st.x[c]), v);
        }
    }

    /// Every row has the share of the variable on top.
    proof fn fixing_adds_to_rows(
        &self,
        p: Program,
        r: Program,
        rule: Rule,
        st: State,
        mode: Recovery,
        i: int,
    )
        requires
            p.sizes(st),
            mode.has_point(),
            rule matches Rule::Fixed { column, value, .. } && fixed_out(
                p,
                r,
                column as int,
                exact::number(mode.shift(value)),
            ),
            0 <= i < p.rows,
        ensures
            p.activity(i, self.undone(rule, st, mode).x) == r.activity(i, st.x) + exact::times(
                p.a[(i, rule->Fixed_column as int)],
                exact::number(mode.shift(rule->Fixed_value)),
            ),
    {
        let back = self.undone(rule, st, mode);
        let c = rule->Fixed_column as int;
        assert forall|k: int| 0 <= k < p.columns && k != c implies #[trigger] p.at(Line::Row(i), k)
            == r.at(Line::Row(i), k) by {
            assert(r.a[(i, k)] == p.a[(i, k)]);
        }
        assert(r.a[(i, c)] == 0 as real);
        totals_differ_at((p, Line::Row(i)), (r, Line::Row(i)), c, back.x, p.columns);
        total_updated(r, Line::Row(i), st.x, c, back.x[c], p.columns);
        exact::times_plain(exact::number(back.x[c]), 0 as real);
        exact::times_plain(exact::number(st.x[c]), 0 as real);
    }

    /// A fixed variable comes back with its value, and its multiplier makes its
    /// column stationary. Where a column was stationary without the variable it is
    /// with it, and every row has the share of the variable on top.
    pub proof fn fixed_variables_come_back_stationary(
        &self,
        p: Program,
        r: Program,
        rule: Rule,
        st: State,
        mode: Recovery,
        j: int,
        i: int,
    )
        requires
            self.exact(),
            p.sizes(st),
            rule matches Rule::Fixed { column, value, gradient, entries } && {
                &&& fixed_out(p, r, column as int, exact::number(mode.shift(value)))
                &&& exact::number(gradient.constant) == p.c[column as int]
                &&& p.lists(Line::Curve(column as int), gradient.terms@, p.columns)
                &&& p.lists(Line::Column(column as int), entries@, p.rows)
            },
            finite_state(self.undone(rule, st, mode)),
            0 <= j < p.columns,
            0 <= i < p.rows,
        ensures
            ({
                let column = rule->Fixed_column as int;
                let value = exact::number(mode.shift(rule->Fixed_value));
                let back = self.undone(rule, st, mode);
                &&& mode.has_point() ==> exact::number(back.x[column]) == value
                &&& mode.has_multipliers() && j == column ==> p.residual(j, back, mode)
                    == 0 as real
                &&& mode.has_multipliers() && j != column ==> p.residual(j, back, mode)
                    == r.residual(j, st, mode)
                &&& mode.has_point() ==> p.activity(i, back.x) == r.activity(i, st.x)
                    + exact::times(p.a[(i, column)], value)
            }),
    {
        if mode.has_multipliers() {
            self.fixed_column_is_stationary(p, rule, st, mode);
            if j != rule->Fixed_column {
                self.fixing_keeps_other_columns(p, r, rule, st, mode, j);
            }
        }
        if mode.has_point() {
            self.fixing_adds_to_rows(p, r, rule, st, mode, i);
        }
    }
}

/// Two programs are the same but for one row, which the second has not.
pub open spec fn row_dropped(p: Program, r: Program, row: int) -> bool {
    &&& r == (Program { a: r.a, ..p })
    &&& 0 <= row < p.rows
    &&& forall|i: int, j: int|
        0 <= i < p.rows && 0 <= j < p.columns ==> #[trigger] r.a[(i, j)] == (if i == row {
            0 as real
        } else {
            p.a[(i, j)]
        })
}

/// Target rows less multiples of a reference row. The multiples are column zero of
/// `w`.
pub open spec fn rows_combined(p: Program, r: Program, w: Program, reference: int) -> bool {
    &&& r == (Program { a: r.a, ..p })
    &&& 0 <= reference < p.rows
    &&& w.a[(reference, 0)] == 0 as real
    &&& forall|i: int, j: int|
        0 <= i < p.rows && 0 <= j < p.columns ==> #[trigger] r.a[(i, j)] == p.a[(i, j)]
            - exact::times(w.a[(i, 0)], p.a[(reference, j)])
}

/// Programs that differ in their rows alone have the same derivatives.
pub(crate) proof fn rows_leave_gradients(p: Program, r: Program, j: int, x: Seq<Real>, mode: Recovery)
    requires
        r == (Program { a: r.a, ..p }),
    ensures
        r.gradient(j, x, mode) == p.gradient(j, x, mode),
{
    totals_differ_at((p, Line::Curve(j)), (r, Line::Curve(j)), -1, x, p.columns);
}

/// The coefficient of a saved row is that of the program.
pub(crate) proof fn saved_coefficient(p: Program, equation: Equation, column: usize)
    requires
        p.lists(Line::Row(equation.row as int), equation.entries@, p.columns),
        equation.stores(column),
        column < p.columns,
    ensures
        exact::number(equation.coefficient_of(column)) == p.a[(
            equation.row as int,
            column as int,
        )],
        equation.coefficient_of(column).finite(),
{
    let entries = equation.entries@;
    let k = choose|k: int| 0 <= k < entries.len() && (#[trigger] entries[k]).0 == column;
    merge::entry_is(entries, k);
    assert(p.at(Line::Row(equation.row as int), column as int) == exact::number(entries[k].1));
}

impl<
    P: Fn(Real, Real) -> Real,
    T: Fn(Real, Real) -> Real,
    D: Fn(Real, Real) -> Real,
    H: Fn(Real, Real) -> Real,
> Arithmetic<P, T, D, H> {
    /// Rows that were dropped come back without a multiplier: every column is as
    /// stationary as it was without them.
    pub proof fn dropped_rows_come_back_idle(
        &self,
        p: Program,
        r: Program,
        rule: Rule,
        st: State,
        mode: Recovery,
        j: int,
    )
        requires
            p.sizes(st),
            mode.has_multipliers(),
            match rule {
                Rule::DeletedRow(row) => row_dropped(p, r, row as int),
                Rule::DependentRow { row, .. } => row_dropped(p, r, row as int),
                Rule::MergedRow { removed, .. } => row_dropped(p, r, removed as int),
                _ => false,
            },
            0 <= j < p.columns,
        ensures
            p.residual(j, self.undone(rule, st, mode), mode) == r.residual(j, st, mode),
            self.undone(rule, st, mode).x == st.x,
    {
        exact::numbers_are_ordered(zero(), zero());
        let back = self.undone(rule, st, mode);
        let row = match rule {
            Rule::DeletedRow(row) => row as int,
            Rule::DependentRow { row, .. } => row as int,
            Rule::MergedRow { removed, .. } => removed as int,
            _ => 0,
        };
        let line = Line::Column(j);
        assert forall|k: int| 0 <= k < p.rows && k != row implies #[trigger] p.at(line, k) == r.at(
            line,
            k,
        ) by {
            assert(r.a[(k, j)] == p.a[(k, j)]);
        }
        assert(r.a[(row, j)] == 0 as real);
        rows_leave_gradients(p, r, j, st.x, mode);
        totals_differ_at((p, line), (r, line), row, back.y, p.rows);
        total_updated(r, line, st.y, row, zero(), p.rows);
        exact::times_plain(p.a[(row, j)], 0 as real);
        exact::times_plain(exact::number(st.y[row]), 0 as real);
    }

    /// A multiplier that a tightened row has no side for goes to the row that
    /// tightened it, and no column feels it.
    pub proof fn tightened_rows_hand_their_multiplier_on(
        &self,
        p: Program,
        rule: Rule,
        st: State,
        mode: Recovery,
        j: int,
    )
        requires
            self.exact(),
            p.sizes(st),
            rule matches Rule::TightenedRow { row, source, ratio, .. } && {
                &&& row < p.rows && source < p.rows && row != source
                &&& forall|k: int|
                    0 <= k < p.columns ==> #[trigger] p.a[(row as int, k)] == exact::times(
                        exact::number(ratio),
                        p.a[(source as int, k)],
                    )
            },
            finite_state(self.undone(rule, st, mode)),
            0 <= j < p.columns,
        ensures
            p.residual(j, self.undone(rule, st, mode), mode) == p.residual(j, st, mode),
            rule matches Rule::TightenedRow { row, side, .. } ==> mode.has_multipliers()
                && side.presses(st.y[row as int]) ==> exact::number(
                self.undone(rule, st, mode).y[row as int],
            ) == 0 as real,
    {
        exact::numbers_are_ordered(zero(), zero());
        if let Rule::TightenedRow { row, source, ratio, side } = rule {
            let (r, s) = (row as int, source as int);
            if mode.has_multipliers() && side.presses(st.y[r]) {
                let term = self.product(ratio, st.y[r]);
                let new = self.sum(st.y[s], term);
                let back = self.undone(rule, st, mode);
                assert(back.y[s] == new);
                assert(exact::is_sum(st.y[s], term, new));
                assert(exact::is_product(ratio, st.y[r], term));
                let (k, t) = (exact::number(ratio), exact::number(st.y[r]));
                assert(exact::number(term) == exact::times(k, t)) by {
                    reveal(exact::times);
                }
                let line = Line::Column(j);
                let half = st.y.update(s, new);
                total_updated(p, line, st.y, s, new, p.rows);
                total_updated(p, line, half, r, zero(), p.rows);
                assert(p.a[(r, j)] == exact::times(k, p.a[(s, j)]));
                let c = p.a[(s, j)];
                exact::times_spreads(exact::number(st.y[s]), exact::times(k, t), c);
                exact::times_commutes(c, k, t);
                exact::times_commutes(k, c, t);
                exact::times_plain(p.a[(r, j)], t);
            }
        }
    }

    /// What a row hands to others is the weight of their multipliers.
    proof fn transfers_are_exact(
        &self,
        y: Seq<Real>,
        to: int,
        targets: Seq<(usize, Real)>,
    )
        requires
            self.exact(),
            0 <= to < y.len(),
            forall|k: int|
                0 <= k < targets.len() ==> (#[trigger] targets[k]).0 != to && targets[k].0
                    < y.len(),
            self.transferred(y, to, targets, true)[to].finite(),
        ensures
            exact::number(self.transferred(y, to, targets, true)[to]) == exact::number(y[to])
                - exact::weight(targets, y, None),
            forall|i: int|
                0 <= i < y.len() && i != to ==> #[trigger] self.transferred(y, to, targets, true)[i]
                    == y[i],
            self.transferred(y, to, targets, true).len() == y.len(),
        decreases targets.len(),
    {
        if targets.len() > 0 {
            let less = targets.drop_last();
            let before = self.transferred(y, to, less, true);
            let (i, alpha) = targets.last();
            let term = self.product(alpha, before[i as int]);
            self.transfers_keep_length(y, to, less);
            self.differences_are_exact(before[to], term);
            assert(targets[targets.len() - 1].0 != to);
            assert forall|k: int| 0 <= k < less.len() implies (#[trigger] less[k]).0 != to
                && less[k].0 < y.len() by {
                assert(targets[k].0 != to);
            }
            self.transfers_are_exact(y, to, less);
            assert(exact::is_product(alpha, before[i as int], term));
            reveal(exact::times);
        }
    }

    proof fn transfers_keep_length(&self, y: Seq<Real>, to: int, targets: Seq<(usize, Real)>)
        requires
            0 <= to < y.len(),
        ensures
            self.transferred(y, to, targets, true).len() == y.len(),
        decreases targets.len(),
    {
        if targets.len() > 0 {
            self.transfers_keep_length(y, to, targets.drop_last());
        }
    }

    /// Rows that lost multiples of a reference row give the reference its multiplier
    /// back: every column is as stationary as it was with the shorter rows.
    pub proof fn combined_rows_come_back_stationary(
        &self,
        p: Program,
        r: Program,
        w: Program,
        rule: Rule,
        st: State,
        mode: Recovery,
        j: int,
    )
        requires
            self.exact(),
            p.sizes(st),
            mode.has_multipliers(),
            rule matches Rule::RowCombination { reference, targets, .. } && {
                &&& rows_combined(p, r, w, reference as int)
                &&& w.lists(Line::Column(0), targets@, p.rows)
                &&& !listed(targets@, reference as int)
            },
            finite_state(self.undone(rule, st, mode)),
            0 <= j < p.columns,
        ensures
            p.residual(j, self.undone(rule, st, mode), mode) == r.residual(j, st, mode),
    {
        if let Rule::RowCombination { reference, targets, activity } = rule {
            let to = reference as int;
            let back = self.undone(rule, st, mode);
            assert forall|k: int| 0 <= k < targets@.len() implies (#[trigger] targets@[k]).0 != to
                && targets@[k].0 < st.y.len() by {}
            self.transfers_keep_length(st.y, to, targets@);
            assert(back.y[to].finite());
            self.transfers_are_exact(st.y, to, targets@);
            assert(back.y =~= st.y.update(to, back.y[to]));
            rows_leave_gradients(p, r, j, st.x, mode);
            weight_is_total(w, Line::Column(0), targets@, st.y, None, p.rows);
            total_updated(p, Line::Column(j), st.y, to, back.y[to], p.rows);
            let c = p.a[(to, j)];
            assert forall|k: int| 0 <= k < p.rows implies #[trigger] r.at(Line::Column(j), k)
                == p.at(Line::Column(j), k) + exact::times(-c, w.at(Line::Column(0), k)) by {
                assert(r.a[(k, j)] == p.a[(k, j)] - exact::times(w.a[(k, 0)], c));
                exact::times_plain(c, w.a[(k, 0)]);
                exact::times_commutes(w.a[(k, 0)], c, c);
            }
            totals_combine(
                (r, Line::Column(j)),
                (p, Line::Column(j)),
                (w, Line::Column(0)),
                -c,
                st.y,
                p.rows,
            );
            let t = w.total(Line::Column(0), st.y, p.rows);
            exact::times_plain(c, t);
            exact::times_spreads(exact::number(st.y[to]), t, c);
        }
    }

    /// The multipliers of bounds after a row took a share.
    proof fn reliefs_are_exact(
        &self,
        p: Program,
        line: Line,
        z: Seq<Real>,
        entries: Seq<(usize, Real)>,
        theta: Real,
        j: int,
        n: nat,
    )
        requires
            self.exact(),
            p.lists(line, entries, n),
            n == z.len(),
            0 <= j < n,
        ensures
            self.relieved(z, entries, theta).len() == z.len(),
            self.relieved(z, entries, theta)[j].finite() && theta.finite() ==> exact::number(
                self.relieved(z, entries, theta)[j],
            ) == exact::number(z[j]) - exact::times(p.at(line, j), exact::number(theta)),
    {
        self.reliefs_by_entry(z, entries, theta, j);
        let t = exact::number(theta);
        exact::times_plain(t, t);
        if listed(entries, j) {
            let k = choose|k: int| 0 <= k < entries.len() && (#[trigger] entries[k]).0 == j;
            assert(p.at(line, entries[k].0 as int) == exact::number(entries[k].1));
            let a = entries[k].1;
            let term = self.product(a, theta);
            assert(exact::is_product(a, theta, term));
            self.differences_are_exact(z[j], term);
            assert(exact::times(exact::number(a), t) == exact::number(a) * t) by {
                reveal(exact::times);
            }
        } else {
            assert(p.at(line, j) == 0 as real);
        }
    }

    proof fn reliefs_by_entry(
        &self,
        z: Seq<Real>,
        entries: Seq<(usize, Real)>,
        theta: Real,
        j: int,
    )
        requires
            merge::increasing(entries),
            forall|k: int| 0 <= k < entries.len() ==> (#[trigger] entries[k]).0 < z.len(),
            0 <= j < z.len(),
        ensures
            self.relieved(z, entries, theta).len() == z.len(),
            !listed(entries, j) ==> self.relieved(z, entries, theta)[j] == z[j],
            forall|k: int|
                0 <= k < entries.len() && (#[trigger] entries[k]).0 == j ==> self.relieved(
                    z,
                    entries,
                    theta,
                )[j] == self.difference(z[j], self.product(entries[k].1, theta)),
        decreases entries.len(),
    {
        if entries.len() > 0 {
            let less = entries.drop_last();
            let e = entries.len() - 1;
            assert forall|k: int| 0 <= k < less.len() implies (#[trigger] less[k]).0 < z.len() by {
                assert(entries[k].0 < z.len());
            }
            assert(merge::increasing(less)) by {
                assert forall|a: int, b: int| 0 <= a < b < less.len() implies (
                #[trigger] less[a]).0 < (#[trigger] less[b]).0 by {
                    assert(entries[a].0 < entries[b].0);
                }
            }
            self.reliefs_by_entry(z, less, theta, j);
            assert(entries[e].0 < z.len());
            if entries[e].0 == j {
                assert(!listed(less, j)) by {
                    if listed(less, j) {
                        let k = choose|k: int| 0 <= k < less.len() && (#[trigger] less[k]).0 == j;
                        assert(entries[k].0 < entries[e].0);
                    }
                }
                assert forall|k: int| 0 <= k < entries.len() && (
                #[trigger] entries[k]).0 == j implies k == e by {
                    if k < e {
                        assert(entries[k].0 < entries[e].0);
                    }
                }
            } else {
                if !listed(entries, j) && listed(less, j) {
                    let k = choose|k: int| 0 <= k < less.len() && (#[trigger] less[k]).0 == j;
                    assert(entries[k].0 == j);
                }
                assert forall|k: int| 0 <= k < entries.len() && (
                #[trigger] entries[k]).0 == j implies self.relieved(z, entries, theta)[j]
                    == self.difference(z[j], self.product(entries[k].1, theta)) by {
                    assert(less[k].0 == j);
                }
            }
        }
    }

    /// A multiplier that a tightened bound has no right to goes to the row that
    /// implied the bound, and no column feels it: what the row presses, the bounds
    /// of its variables give up.
    pub proof fn tightened_bounds_hand_their_multiplier_on(
        &self,
        p: Program,
        rule: Rule,
        st: State,
        mode: Recovery,
        j: int,
    )
        requires
            self.exact(),
            p.sizes(st),
            rule matches Rule::TightenedBound { column, equation, .. } && {
                &&& column < p.columns
                &&& equation.row < p.rows
                &&& equation.stores(column)
                &&& p.lists(Line::Row(equation.row as int), equation.entries@, p.columns)
                &&& p.a[(equation.row as int, column as int)] != 0 as real
            },
            finite_state(st),
            finite_state(self.undone(rule, st, mode)),
            0 <= j < p.columns,
        ensures
            p.residual(j, self.undone(rule, st, mode), mode) == p.residual(j, st, mode),
            self.undone(rule, st, mode).x == st.x,
            rule matches Rule::TightenedBound { column, side, old, .. } ==> mode.has_multipliers()
                && side.presses(st.z[column as int]) && !(mode is Solution && self.near(
                st.x[column as int],
                old,
            )) ==> exact::number(self.undone(rule, st, mode).z[column as int]) == 0 as real,
    {
        exact::numbers_are_ordered(zero(), zero());
        if let Rule::TightenedBound { column, equation, side, old } = rule {
            let c = column as int;
            let row = equation.row as int;
            let z = st.z[c];
            if mode.has_multipliers() && side.presses(z) && !(mode is Solution && self.near(
                st.x[c],
                old,
            )) {
                let a = equation.coefficient_of(column);
                saved_coefficient(p, equation, column);
                let theta = self.quotient(z, a);
                let back = self.undone(rule, st, mode);
                assert(back.y[row] == self.sum(st.y[row], theta));
                assert(back.y[row].finite());
                assert(exact::is_sum(st.y[row], theta, back.y[row]));
                assert(exact::is_quotient(z, a, theta));
                exact::numbers_are_ordered(a, a);
                let line = Line::Row(row);
                self.reliefs_are_exact(p, line, st.z, equation.entries@, theta, j, p.columns);
                total_updated(p, Line::Column(j), st.y, row, back.y[row], p.rows);
                exact::times_spreads(
                    exact::number(st.y[row]),
                    exact::number(theta),
                    p.a[(row, j)],
                );
                if j == c {
                    assert(exact::times(p.a[(row, j)], exact::number(theta)) == exact::number(
                        z,
                    )) by {
                        reveal(exact::times);
                        exact::times_commutes(exact::number(theta), exact::number(a), 0 as real);
                    }
                } else {
                    assert(back.z[j] == self.relieved(st.z, equation.entries@, theta)[j]);
                    assert(back.z[j].finite());
                }
            }
        }
    }
}

} // verus!
