//! Why the rules on one row or one column may do what they choose: the value that a
//! variable is fixed at costs least, a direction that is called endless is, and
//! what a row of one entry says of its variable is what the row said.

use crate::arithmetic::Arithmetic;
use crate::bounds::{Bounds, RowDomain};
use crate::certificates;
use crate::choices::{self, ColumnChoice, EmptyRow};
use crate::exact;
use crate::feasible;
use crate::linked;
use crate::merge;
use crate::model::{self, Model};
use crate::number::{minus_one, one, zero, Real};
use crate::objective::Objective;
use crate::stationarity::{self, Line, Program};
use crate::tape;
use vstd::prelude::*;

verus! {

/// What a variable costs that is coupled to no other.
pub open spec fn cost(p: Real, c: Real, t: real) -> real {
    exact::number(c) * t + exact::number(p) * (t * t) / (2 as real)
}

/// Where the derivative points to a value, nothing costs less.
proof fn slopes_decide(p: real, c: real, v: real, t: real)
    requires
        p >= 0 as real,
        (t - v) * (c + p * v) >= 0 as real,
    ensures
        c * v + p * (v * v) / (2 as real) <= c * t + p * (t * t) / (2 as real),
{
    let d = t - v;
    assert(t == v + d);
    assert(c * (v + d) == c * v + c * d) by (nonlinear_arith);
    assert(p * ((v + d) * (v + d)) == p * (v * v) + (2 as real) * (d * (p * v)) + p * (d * d))
        by (nonlinear_arith);
    assert(d * (c + p * v) == c * d + d * (p * v)) by (nonlinear_arith);
    assert(p >= 0 as real ==> p * (d * d) >= 0 as real) by (nonlinear_arith);
}

/// The slope at a value between the vertex and a point does not lead to the point.
proof fn clamped_slopes(p: real, c: real, u: real, v: real, t: real)
    requires
        p > 0 as real,
        u * p == -c,
        v == u || (u <= v <= t) || (t <= v <= u),
    ensures
        (t - v) * (c + p * v) >= 0 as real,
{
    assert(p * v - u * p == p * (v - u)) by (nonlinear_arith);
    let (d, e) = (t - v, v - u);
    assert(c + p * v == p * e);
    assert(d >= 0 as real && e >= 0 as real && p > 0 as real ==> d * (p * e) >= 0 as real)
        by (nonlinear_arith);
    assert(d <= 0 as real && e <= 0 as real && p > 0 as real ==> d * (p * e) >= 0 as real)
        by (nonlinear_arith);
    assert(e == 0 as real ==> d * (p * e) >= 0 as real) by (nonlinear_arith);
}

/// A value beyond a side costs no less where the objective does not fall inwards.
proof fn signs_agree(d: real, s: real)
    by (nonlinear_arith)
    ensures
        d >= 0 as real && s >= 0 as real ==> d * s >= 0 as real,
        d <= 0 as real && s <= 0 as real ==> d * s >= 0 as real,
        s == 0 as real ==> d * s >= 0 as real,
        s > 0 as real ==> s * -(1 as real) < 0 as real,
        s < 0 as real ==> s * (1 as real) < 0 as real,
{
}

/// The sides of an interval that other sides imply can go: within the others they
/// admit the same.
pub proof fn implied_sides_are_no_loss(b: Bounds, implied: Bounds, t: real)
    requires
        exact::admits(implied, t),
    ensures
        exact::admits(b, t) ==> exact::admits(choices::not_implied(b, implied), t),
        feasible::sided(b) && exact::admits(choices::not_implied(b, implied), t) ==> exact::admits(
            b,
            t,
        ),
{
    if b.lower.finite() && implied.lower.finite() {
        exact::numbers_are_ordered(b.lower, implied.lower);
    }
    if b.upper.finite() && implied.upper.finite() {
        exact::numbers_are_ordered(implied.upper, b.upper);
    }
}

/// Points that agree in all columns but one differ in the activity of a row by the
/// share of that column.
proof fn activities_differ(
    entries: Seq<(usize, Real)>,
    j: int,
    x: spec_fn(int) -> real,
    y: spec_fn(int) -> real,
)
    requires
        forall|a: int, b: int|
            0 <= a < b < entries.len() ==> (#[trigger] entries[a]).0 < (#[trigger] entries[b]).0,
        forall|k: int| k != j ==> #[trigger] y(k) == x(k),
    ensures
        (forall|k: int| 0 <= k < entries.len() ==> (#[trigger] entries[k]).0 != j)
            ==> exact::activity_at(entries, y) == exact::activity_at(entries, x),
        forall|k: int|
            0 <= k < entries.len() && (#[trigger] entries[k]).0 == j ==> exact::activity_at(
                entries,
                y,
            ) == exact::activity_at(entries, x) + exact::number(entries[k].1) * (y(j) - x(j)),
    decreases entries.len(),
{
    if entries.len() > 0 {
        let less = entries.drop_last();
        let n = entries.len() - 1;
        assert forall|a: int, b: int| 0 <= a < b < less.len() implies (#[trigger] less[a]).0 < (
        #[trigger] less[b]).0 by {
            assert(entries[a].0 < entries[b].0);
        }
        activities_differ(less, j, x, y);
        let (l, a) = entries[n];
        if l == j {
            assert forall|k: int| 0 <= k < less.len() implies (#[trigger] less[k]).0 != j by {
                assert(entries[k].0 < entries[n].0);
            }
            let (u, v, w) = (exact::number(a), x(j), y(j));
            assert(u * w == u * v + u * (w - v)) by (nonlinear_arith);
            assert forall|k: int| 0 <= k < entries.len() && (#[trigger] entries[k]).0 == j implies k
                == n by {
                if k < n {
                    assert(entries[k].0 < entries[n].0);
                }
            }
        } else {
            if forall|k: int| 0 <= k < entries.len() ==> (#[trigger] entries[k]).0 != j {
                assert forall|k: int| 0 <= k < less.len() implies (#[trigger] less[k]).0 != j by {
                    assert(entries[k].0 != j);
                }
            }
            assert forall|k: int|
                0 <= k < entries.len() && (#[trigger] entries[k]).0 == j implies exact::activity_at(
                entries,
                y,
            ) == exact::activity_at(entries, x) + exact::number(entries[k].1) * (y(j) - x(j)) by {
                assert(k != n);
                assert(less[k] == entries[k]);
            }
        }
    }
}

/// A variable that no row locks in a direction can go there: every row that holds
/// keeps holding, and none of the rows that mention it is a cone row.
pub proof fn unlocked_moves_keep_rows(
    m: Model,
    j: int,
    up: bool,
    i: int,
    entries: Seq<(usize, Real)>,
    x: spec_fn(int) -> real,
    y: spec_fn(int) -> real,
)
    requires
        m.wf(),
        0 <= j < m.locks@.len(),
        (if up {
            m.locks@[j].up
        } else {
            m.locks@[j].down
        }) == 0,
        0 <= i < m.rows@.len(),
        linked::lists_line(entries, m.a@, false, i),
        forall|k: int| 0 <= k < entries.len() ==> (#[trigger] entries[k]).1.finite(),
        forall|k: int| k != j ==> #[trigger] y(k) == x(k),
        if up {
            x(j) <= y(j)
        } else {
            y(j) <= x(j)
        },
    ensures
        m.rows@[i] matches RowDomain::Linear(b) ==> exact::admits(
            b,
            exact::activity_at(entries, x),
        ) ==> exact::admits(b, exact::activity_at(entries, y)),
        m.rows@[i] is Cone ==> exact::activity_at(entries, y) == exact::activity_at(entries, x),
{
    activities_differ(entries, j, x, y);
    let set = model::locking(m.a@, m.rows@, j, up);
    assert forall|r: int, k: int| #[trigger] m.a@.contains_key((r, k)) implies 0 <= r
        < m.rows@.len() by {
        m.a.stored_positions();
    }
    model::locking_is_finite(m.a@, m.rows@, j, up);
    assert(set.len() == 0);
    assert(set =~= Set::empty());
    if exists|k: int| 0 <= k < entries.len() && (#[trigger] entries[k]).0 == j {
        let k = choose|k: int| 0 <= k < entries.len() && (#[trigger] entries[k]).0 == j;
        let a = entries[k].1;
        assert(m.a@.contains_key(linked::place(false, i, entries[k].0 as int)));
        assert(m.a@.contains_key((i, j)) && m.a@[(i, j)] == a);
        assert(!set.contains(i));
        exact::numbers_are_ordered(a, a);
        let (r, d) = (exact::number(a), y(j) - x(j));
        assert(r > 0 as real && d >= 0 as real ==> r * d >= 0 as real) by (nonlinear_arith);
        assert(r > 0 as real && d <= 0 as real ==> r * d <= 0 as real) by (nonlinear_arith);
        assert(r <= 0 as real && d >= 0 as real ==> r * d <= 0 as real) by (nonlinear_arith);
        assert(r <= 0 as real && d <= 0 as real ==> r * d >= 0 as real) by (nonlinear_arith);
    }
}

impl<
    P: Fn(Real, Real) -> Real,
    T: Fn(Real, Real) -> Real,
    D: Fn(Real, Real) -> Real,
    H: Fn(Real, Real) -> Real,
> Arithmetic<P, T, D, H> {
    /// The interval of the variable of a row of one entry admits a value exactly
    /// when the row does, whatever the sign of the coefficient.
    pub proof fn scaled_intervals_admit_the_same(&self, b: Bounds, a: Real, t: real)
        requires
            self.exact(),
            a.finite(),
            !a.zero(),
            feasible::sided(b),
            b.lower.finite() ==> self.quotient(b.lower, a).finite(),
            b.upper.finite() ==> self.quotient(b.upper, a).finite(),
        ensures
            feasible::sided(self.scaled_interval(b, a)),
            exact::admits(self.scaled_interval(b, a), t) <==> exact::admits(
                b,
                exact::number(a) * t,
            ),
    {
        exact::numbers_are_ordered(a, a);
        let (l, u) = (self.quotient(b.lower, a), self.quotient(b.upper, a));
        assert(exact::is_quotient(b.lower, a, l));
        assert(exact::is_quotient(b.upper, a, u));
        let (r, m, n) = (exact::number(a), exact::number(l), exact::number(u));
        assert(r > 0 as real ==> (m <= t <==> m * r <= r * t)) by (nonlinear_arith);
        assert(r < 0 as real ==> (t <= m <==> m * r <= r * t)) by (nonlinear_arith);
        assert(r > 0 as real ==> (t <= n <==> r * t <= n * r)) by (nonlinear_arith);
        assert(r < 0 as real ==> (n <= t <==> r * t <= n * r)) by (nonlinear_arith);
        assert(zero().lt(a) <==> !a.negative_sign());
    }

    /// A row without entries that is called infeasible does not admit zero, and the
    /// multiplier tells on which side. One that admits zero is superfluous.
    pub proof fn empty_rows_admit_zero(&self, m: Model, i: int, feasibility: Real)
        requires
            self.exact(),
            0 <= i < m.rows@.len(),
            !feasibility.lt(zero()),
            m.rows@[i] matches RowDomain::Linear(b) && feasible::sided(b),
            linked::line_items(m.a@, false, i).len() == 0,
        ensures
            ({
                let b = m.rows@[i]->Linear_0;
                &&& self.empty_row_choice(m, i, feasibility) matches EmptyRow::Infeasible(y)
                    ==> Self::refuted(b, y, 0 as real)
                &&& exact::admits(b, 0 as real) ==> self.empty_row_choice(m, i, feasibility)
                    == EmptyRow::Delete
            }),
    {
        let b = m.rows@[i]->Linear_0;
        exact::numbers_are_ordered(zero(), zero());
        if b.lower.finite() && self.apart(b.lower, zero(), feasibility) {
            self.apart_is_apart(b.lower, zero(), feasibility);
        }
        if b.upper.finite() && self.apart(zero(), b.upper, feasibility) {
            self.apart_is_apart(zero(), b.upper, feasibility);
        }
    }

    /// The value of a variable that no row mentions is one of its values, and none
    /// costs less.
    pub proof fn free_values_cost_least(&self, p: Real, c: Real, b: Bounds, t: real)
        requires
            self.exact(),
            p.finite(),
            c.finite(),
            !p.lt(zero()),
            zero().lt(p) ==> self.quotient(c.opposite(), p).finite(),
            exact::admits(b, t),
            self.free_value(p, c, b).finite(),
        ensures
            exact::admits(b, exact::number(self.free_value(p, c, b))),
            cost(p, c, exact::number(self.free_value(p, c, b))) <= cost(p, c, t),
    {
        let v = self.free_value(p, c, b);
        exact::numbers_are_ordered(p, p);
        exact::numbers_are_ordered(c, c);
        exact::numbers_are_ordered(zero(), zero());
        let (q, d, w) = (exact::number(p), exact::number(c), exact::number(v));
        if b.lower.finite() && b.upper.finite() {
            exact::numbers_are_ordered(b.lower, b.upper);
        }
        if zero().lt(p) {
            let u = self.quotient(c.opposite(), p);
            assert(exact::is_quotient(c.opposite(), p, u));
            if b.lower.finite() {
                exact::numbers_are_ordered(u, b.lower);
            }
            if b.upper.finite() {
                exact::numbers_are_ordered(u, b.upper);
            }
            clamped_slopes(q, d, exact::number(u), w, t);
        } else {
            assert(q == 0 as real);
            if b.lower.finite() {
                exact::numbers_are_ordered(zero(), b.lower);
            }
            if b.upper.finite() {
                exact::numbers_are_ordered(zero(), b.upper);
            }
            assert((0 as real) * w == 0 as real) by (nonlinear_arith);
            signs_agree(t - w, d);
        }
        slopes_decide(q, d, w, t);
    }

    /// What is chosen for a column without entries costs least: a value that it is
    /// fixed at is one of its values, and none costs less. In a direction that is
    /// called endless the objective falls, and no bound stops it.
    pub proof fn empty_columns_go_where_they_cost_least(
        &self,
        m: Model,
        objective: Objective,
        j: int,
        t: real,
        s: real,
    )
        requires
            self.exact(),
            own_finite(objective, j),
            ({
                let (p, c) = (choices::own_curvature(objective, j)->0, objective.c@[j]);
                zero().lt(p) ==> self.quotient(c.opposite(), p).finite()
            }),
            exact::admits(m.bounds@[j], t),
            s >= 0 as real,
        ensures
            ({
                let (p, c) = (choices::own_curvature(objective, j)->0, objective.c@[j]);
                match self.empty_column_choice(m, objective, j) {
                    ColumnChoice::Fix(v) => exact::admits(m.bounds@[j], exact::number(v)) && cost(
                        p,
                        c,
                        exact::number(v),
                    ) <= cost(p, c, t),
                    ColumnChoice::Ray(d) => falls(p, c, m.bounds@[j], exact::number(d), t, s),
                    ColumnChoice::RemoveUnlocked => false,
                    ColumnChoice::Skip => true,
                }
            }),
    {
        let (p, c, b) = (choices::own_curvature(objective, j)->0, objective.c@[j], m.bounds@[j]);
        exact::numbers_are_ordered(p, p);
        exact::numbers_are_ordered(c, c);
        exact::one_is_one();
        exact::opposites(minus_one());
        exact::opposites(one());
        signs_agree(0 as real, exact::number(c));
        assert(s * -(1 as real) == -s && s * (1 as real) == s) by (nonlinear_arith);
        if self.free_value(p, c, b).finite() && !p.lt(zero()) {
            self.free_values_cost_least(p, c, b, t);
        }
    }

    /// What is chosen for a column that rows lock on one side at most: a value that
    /// it is fixed at is one of its values, none costs less, and it lies from every
    /// value in a direction that nothing locks. In a direction that is called
    /// endless the objective falls and nothing stops it. A column that goes with its
    /// rows costs nothing and can go on forever in a direction that nothing locks.
    pub proof fn unlocked_columns_go_where_they_cost_least(
        &self,
        m: Model,
        objective: Objective,
        j: int,
        t: real,
        s: real,
    )
        requires
            self.exact(),
            own_finite(objective, j),
            exact::admits(m.bounds@[j], t),
            s >= 0 as real,
        ensures
            ({
                let (p, c) = (choices::own_curvature(objective, j)->0, objective.c@[j]);
                let (b, lock) = (m.bounds@[j], m.locks@[j]);
                match self.dual_fix_choice(m, objective, j) {
                    ColumnChoice::Fix(v) => {
                        let w = exact::number(v);
                        &&& exact::admits(b, w)
                        &&& cost(p, c, w) <= cost(p, c, t)
                        &&& w <= t && lock.down == 0 || t <= w && lock.up == 0
                    },
                    ColumnChoice::Ray(d) => {
                        let e = exact::number(d);
                        &&& falls(p, c, b, e, t, s)
                        &&& e < 0 as real ==> lock.down == 0
                        &&& e > 0 as real ==> lock.up == 0
                    },
                    ColumnChoice::RemoveUnlocked => {
                        &&& forall|u: real| #[trigger] cost(p, c, u) == 0 as real
                        &&& lock.down == 0 && exact::admits(b, t - s) || lock.up == 0
                            && exact::admits(b, t + s)
                    },
                    ColumnChoice::Skip => true,
                }
            }),
    {
        let (p, c, b) = (choices::own_curvature(objective, j)->0, objective.c@[j], m.bounds@[j]);
        exact::numbers_are_ordered(p, p);
        exact::numbers_are_ordered(c, c);
        exact::one_is_one();
        exact::opposites(minus_one());
        exact::opposites(one());
        signs_agree(0 as real, exact::number(c));
        assert(s * -(1 as real) == -s && s * (1 as real) == s) by (nonlinear_arith);
        let (q, d) = (exact::number(p), exact::number(c));
        if p.zero() && c.zero() {
            assert forall|u: real| #[trigger] cost(p, c, u) == 0 as real by {
                assert((0 as real) * u == 0 as real) by (nonlinear_arith);
                assert((0 as real) * (u * u) == 0 as real) by (nonlinear_arith);
            }
        }
        if b.lower.finite() && b.upper.finite() {
            exact::numbers_are_ordered(b.lower, b.upper);
        }
        if let ColumnChoice::Fix(v) = self.dual_fix_choice(m, objective, j) {
            let w = exact::number(v);
            if !(p.zero() && c.zero()) {
                let term = self.product(p, v);
                let slope = self.slope_at(p, c, v);
                assert(exact::is_product(p, v, term));
                assert(exact::is_sum(term, c, slope));
                exact::numbers_are_ordered(slope, slope);
                signs_agree(t - w, d + q * w);
                assert(zero().le(slope) ==> exact::number(slope) >= 0 as real) by {
                    exact::numbers_are_ordered(zero(), slope);
                }
                assert(slope.le(zero()) ==> exact::number(slope) <= 0 as real) by {
                    exact::numbers_are_ordered(slope, zero());
                }
                slopes_decide(q, d, w, t);
            }
        }
    }

    /// A column of one entry with a cost belongs on the side of its row that is
    /// chosen: whatever the other variables add, no value that the row admits costs
    /// less than the value that puts the row on that side.
    pub proof fn preferred_sides_cost_least(
        &self,
        c: Real,
        a: Real,
        b: Bounds,
        rest: real,
        t: real,
        u: real,
    )
        requires
            self.exact(),
            c.finite(),
            a.finite(),
            !a.zero(),
            self.quotient(c, a).finite(),
            self.preferred_side(c, a, b).finite(),
            exact::admits(b, exact::number(a) * t + rest),
            exact::number(a) * u + rest == exact::number(self.preferred_side(c, a, b)),
        ensures
            exact::number(c) * u <= exact::number(c) * t,
    {
        let q = self.quotient(c, a);
        assert(exact::is_quotient(c, a, q));
        exact::numbers_are_ordered(q, q);
        exact::numbers_are_ordered(a, a);
        exact::numbers_are_ordered(c, c);
        let (k, r, d) = (exact::number(q), exact::number(a), exact::number(c));
        assert((k * r) * u == k * (r * u) && (k * r) * t == k * (r * t)) by (nonlinear_arith);
        let (v, w) = (r * u, r * t);
        assert(k > 0 as real && v <= w ==> k * v <= k * w) by (nonlinear_arith);
        assert(k < 0 as real && w <= v ==> k * v <= k * w) by (nonlinear_arith);
        assert(k == 0 as real ==> k * v <= k * w) by (nonlinear_arith);
    }
}

/// What is written stands, and the rest stays.
proof fn written_at(values: Seq<Real>, list: Seq<(usize, Real)>, k: int, j: int)
    requires
        merge::increasing(list),
        model::in_range(list, values.len()),
        0 <= k <= list.len(),
        0 <= j < values.len(),
    ensures
        certificates::written(values, list, k).len() == values.len(),
        forall|t: int|
            k <= t < list.len() && (#[trigger] list[t]).0 == j ==> certificates::written(
                values,
                list,
                k,
            )[j] == list[t].1,
        (forall|t: int| k <= t < list.len() ==> (#[trigger] list[t]).0 != j)
            ==> certificates::written(values, list, k)[j] == values[j],
    decreases list.len() - k,
{
    if k < list.len() {
        assert(list[k].0 < values.len());
        written_at(values.update(list[k].0 as int, list[k].1), list, k + 1, j);
        if list[k].0 == j {
            assert forall|t: int| k < t < list.len() implies (#[trigger] list[t]).0 != j by {
                assert(list[k].0 < list[t].0);
            }
        }
    }
}

proof fn nothing_presses_nothing(p: Program, line: Line, len: nat, n: nat)
    requires
        n <= len,
    ensures
        p.total(line, tape::zeros(len), n) == 0 as real,
    decreases n,
{
    if n > 0 {
        nothing_presses_nothing(p, line, len, (n - 1) as nat);
        exact::numbers_are_ordered(zero(), zero());
        exact::times_plain(p.at(line, n - 1), 0 as real);
    }
}

impl<
    P: Fn(Real, Real) -> Real,
    T: Fn(Real, Real) -> Real,
    D: Fn(Real, Real) -> Real,
    H: Fn(Real, Real) -> Real,
> Arithmetic<P, T, D, H> {
    /// A domain that a shift moved into admits what the domain admits with the shift
    /// on top; the right-hand side of a cone row is less by the shift.
    pub proof fn shifted_domains_admit_the_same(&self, domain: RowDomain, shift: Real, t: real)
        requires
            self.exact(),
        ensures
            self.domain_shifted(domain, shift) matches Some(RowDomain::Linear(c)) ==> domain
                matches RowDomain::Linear(b) && (exact::admits(c, t) <==> exact::admits(
                b,
                t + exact::number(shift),
            )),
            self.domain_shifted(domain, shift) matches Some(RowDomain::Cone { rhs, block })
                ==> domain matches RowDomain::Cone { rhs: r, block: k } && block == k && (r.finite()
                ==> exact::number(rhs) == exact::number(r) - exact::number(shift)),
    {
        match domain {
            RowDomain::Linear(b) => {
                self.differences_are_exact(b.lower, shift);
                self.differences_are_exact(b.upper, shift);
            },
            RowDomain::Cone { rhs, .. } => {
                self.differences_are_exact(rhs, shift);
            },
            RowDomain::Deleted => {},
        }
    }

    /// The multipliers that prove a row infeasible cancel in every column: what the
    /// row presses with its multiplier, the bound multiplier of the variable takes
    /// back.
    pub proof fn row_certificates_cancel(
        &self,
        p: Program,
        row: int,
        entries: Seq<(usize, Real)>,
        multiplier: Real,
        z: Seq<Real>,
        j: int,
    )
        requires
            self.exact(),
            0 <= row < p.rows,
            0 <= j < p.columns,
            p.lists(Line::Row(row), entries, p.columns),
            z == certificates::written(
                tape::zeros(p.columns),
                self.countered(entries, multiplier),
                0,
            ),
            z[j].finite(),
        ensures
            p.pressure(j, tape::zeros(p.rows).update(row, multiplier)) + exact::number(z[j])
                == 0 as real,
    {
        let list = self.countered(entries, multiplier);
        let a = p.a[(row, j)];
        let m = exact::number(multiplier);
        exact::numbers_are_ordered(zero(), zero());
        nothing_presses_nothing(p, Line::Column(j), p.rows, p.rows);
        stationarity::total_updated(
            p,
            Line::Column(j),
            tape::zeros(p.rows),
            row,
            multiplier,
            p.rows,
        );
        exact::times_plain(a, m);
        exact::times_plain(m, a);
        assert(p.at(Line::Row(row), j) == a);
        assert forall|s: int, t: int| 0 <= s < t < list.len() implies (#[trigger] list[s]).0 < (
        #[trigger] list[t]).0 by {
            assert(entries[s].0 < entries[t].0);
        }
        assert forall|t: int| 0 <= t < list.len() implies (#[trigger] list[t]).0 < p.columns by {
            assert(entries[t].0 < p.columns);
        }
        written_at(tape::zeros(p.columns), list, 0, j);
        if stationarity::listed(entries, j) {
            let t = choose|t: int| 0 <= t < entries.len() && (#[trigger] entries[t]).0 == j;
            let b = entries[t].1;
            assert(list[t].0 == j);
            let v = self.product(b.opposite(), multiplier);
            assert(z[j] == v);
            assert(exact::is_product(b.opposite(), multiplier, v));
            exact::opposites(b);
            assert(exact::number(v) == exact::times(-a, m)) by {
                reveal(exact::times);
            }
        } else {
            assert forall|t: int| 0 <= t < list.len() implies (#[trigger] list[t]).0 != j by {
                assert(entries[t].0 != j);
            }
        }
    }
}

/// The cost and the curvature of an uncoupled variable are finite.
pub open spec fn own_finite(objective: Objective, j: int) -> bool {
    &&& objective.c@[j].finite()
    &&& choices::own_curvature(objective, j) matches Some(p) && p.finite()
}

/// The cost of a variable falls at a constant rate in a direction of length one,
/// and its interval never ends there.
pub open spec fn falls(p: Real, c: Real, b: Bounds, d: real, t: real, s: real) -> bool {
    &&& d == 1 as real || d == -(1 as real)
    &&& exact::number(p) == 0 as real
    &&& exact::number(c) * d < 0 as real
    &&& exact::admits(b, t + s * d)
}

} // verus!
