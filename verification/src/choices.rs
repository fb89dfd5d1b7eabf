//! What the cheap rules decide about one row or one column.

use crate::arithmetic::Arithmetic;
use crate::bounds::{Bounds, RowDomain, Side};
use crate::linked::{self, Entries};
use crate::listing;
use crate::model::{self, Model};
use crate::number::{infinity, minus_one, neg_infinity, one, zero, Real};
use crate::objective::Objective;
use crate::settings::EqualitySettings;
use crate::sparsify;
use crate::symmetric;
use crate::trees;
use vstd::prelude::*;

verus! {

/// Bit patterns of ten millions and of a ten-millionth, and of sixty-four units
/// of relative rounding.
pub const LARGE_RATIO: u64 = 0x416312d000000000;

pub const SMALL_RATIO: u64 = 0x3e7ad7f29abcaf48;

pub const RESOLUTION: u64 = 0x3d10000000000000;

/// A row without entries.
#[derive(Clone, Copy, Debug, PartialEq, Eq, Structural)]
pub enum EmptyRow {
    Skip,
    Delete,
    /// The row with this multiplier has no feasible point.
    Infeasible(Real),
}

/// What to do with a column by itself.
#[derive(Clone, Copy, Debug, PartialEq, Eq, Structural)]
pub enum ColumnChoice {
    Skip,
    Fix(Real),
    /// The column goes with all its rows.
    RemoveUnlocked,
    /// The objective falls forever in this direction.
    Ray(Real),
}

/// What to do with a column of one entry.
#[derive(Clone, Copy, Debug, PartialEq, Eq, Structural)]
pub enum SingletonChoice {
    Skip,
    /// Substitute through the equality, leaving these bounds behind.
    Equality { row: usize, effective: Bounds },
    /// Substitute on this side of the row.
    Side { row: usize, rhs: Real, effective: Bounds },
}

/// Which variables of a two-variable equality to try, the first one first.
#[derive(Clone, Copy, Debug, PartialEq, Eq, Structural)]
pub struct DoubletonChoice {
    pub first: usize,
    /// Only for a linear objective.
    pub second: Option<usize>,
}

/// The sides of `b` that are not implied.
pub open spec fn not_implied(b: Bounds, implied: Bounds) -> Bounds {
    Bounds {
        lower: if implied.lower.finite() && b.lower.le(implied.lower) {
            neg_infinity()
        } else {
            b.lower
        },
        upper: if implied.upper.finite() && implied.upper.le(b.upper) {
            infinity()
        } else {
            b.upper
        },
    }
}

pub fn non_implied_bounds(b: Bounds, implied: Bounds) -> (r: Bounds)
    ensures
        r == not_implied(b, implied),
{
    Bounds {
        lower: if implied.lower.is_finite() && b.lower.at_most(implied.lower) {
            neg_infinity()
        } else {
            b.lower
        },
        upper: if implied.upper.is_finite() && implied.upper.at_most(b.upper) {
            infinity()
        } else {
            b.upper
        },
    }
}

/// The only curvature of a variable, zero where it has none; nothing where it is
/// coupled to another variable.
pub open spec fn own_curvature(objective: Objective, j: int) -> Option<Real> {
    let terms = listing::line(objective.p@, false, j);
    if terms.len() == 0 {
        Some(zero())
    } else if terms.len() == 1 && terms[0].0 == j {
        Some(terms[0].1)
    } else {
        None
    }
}

impl Objective {
    pub fn diagonal(&self, j: usize) -> (p: Option<Real>)
        requires
            self.wf(),
            j < self.c@.len(),
        ensures
            p == own_curvature(*self, j as int),
    {
        let terms = self.p.row(j).to_vec();
        proof {
            listing::line_is(terms@, self.p@, false, j as int);
        }
        if terms.len() == 0 {
            Some(zero())
        } else if terms.len() == 1 && terms[0].0 == j {
            Some(terms[0].1)
        } else {
            None
        }
    }
}

impl<
    P: Fn(Real, Real) -> Real,
    T: Fn(Real, Real) -> Real,
    D: Fn(Real, Real) -> Real,
    H: Fn(Real, Real) -> Real,
> Arithmetic<P, T, D, H> {
    /// A row without entries is infeasible or superfluous.
    pub open spec fn empty_row_choice(&self, model: Model, i: int, feasibility: Real) -> EmptyRow {
        match model.rows@[i] {
            RowDomain::Linear(b) => if linked::line_items(model.a@, false, i).len() > 0 {
                EmptyRow::Skip
            } else if self.apart(b.lower, zero(), feasibility) {
                EmptyRow::Infeasible(one())
            } else if self.apart(zero(), b.upper, feasibility) {
                EmptyRow::Infeasible(minus_one())
            } else {
                EmptyRow::Delete
            },
            _ => EmptyRow::Skip,
        }
    }

    pub fn choose_empty_row(&self, model: &Model, i: usize, feasibility: Real) -> (choice: EmptyRow)
        requires
            self.wf(),
            model.wf(),
            i < model.rows@.len(),
        ensures
            choice == self.empty_row_choice(*model, i as int, feasibility),
    {
        match model.rows[i] {
            RowDomain::Linear(b) => {
                if model.a.row(i).len() > 0 {
                    EmptyRow::Skip
                } else if self.separated(b.lower, zero(), feasibility) {
                    EmptyRow::Infeasible(one())
                } else if self.separated(zero(), b.upper, feasibility) {
                    EmptyRow::Infeasible(minus_one())
                } else {
                    EmptyRow::Delete
                }
            },
            _ => EmptyRow::Skip,
        }
    }

    /// The interval of the variable in a row of one entry.
    pub open spec fn scaled_interval(&self, b: Bounds, a: Real) -> Bounds {
        if zero().lt(a) {
            Bounds { lower: self.quotient(b.lower, a), upper: self.quotient(b.upper, a) }
        } else {
            Bounds { lower: self.quotient(b.upper, a), upper: self.quotient(b.lower, a) }
        }
    }

    pub fn singleton_interval(&self, b: Bounds, a: Real) -> (r: Bounds)
        requires
            self.wf(),
        ensures
            r == self.scaled_interval(b, a),
    {
        if zero().less(a) {
            Bounds { lower: self.quotient_of(b.lower, a), upper: self.quotient_of(b.upper, a) }
        } else {
            Bounds { lower: self.quotient_of(b.upper, a), upper: self.quotient_of(b.lower, a) }
        }
    }

    /// The best value of a variable that no row mentions.
    pub open spec fn free_value(&self, p: Real, c: Real, b: Bounds) -> Real {
        if zero().lt(p) {
            self.quotient(c.opposite(), p).larger(b.lower).smaller(b.upper)
        } else if zero().lt(c) {
            b.lower
        } else if c.lt(zero()) {
            b.upper
        } else {
            zero().larger(b.lower).smaller(b.upper)
        }
    }

    /// A live column without entries, on which no other variable depends.
    pub open spec fn empty_column_choice(&self, model: Model, objective: Objective, j: int) -> ColumnChoice {
        let c = objective.c@[j];
        if !model.alive@[j] || linked::line_items(model.a@, true, j).len() > 0 {
            ColumnChoice::Skip
        } else {
            match own_curvature(objective, j) {
                Some(p) if !p.lt(zero()) => {
                    let value = self.free_value(p, c, model.bounds@[j]);
                    if value.finite() {
                        ColumnChoice::Fix(value)
                    } else if p.zero() && !c.zero() {
                        ColumnChoice::Ray(c.unit().opposite())
                    } else {
                        ColumnChoice::Skip
                    }
                },
                _ => ColumnChoice::Skip,
            }
        }
    }

    pub fn choose_empty_column(&self, model: &Model, objective: &Objective, j: usize) -> (choice:
        ColumnChoice)
        requires
            self.wf(),
            model.wf(),
            objective.wf(),
            objective.c@.len() == model.bounds@.len(),
            j < model.bounds@.len(),
        ensures
            choice == self.empty_column_choice(*model, *objective, j as int),
    {
        if !model.alive[j] || model.a.column(j).len() > 0 {
            return ColumnChoice::Skip;
        }
        let p = match objective.diagonal(j) {
            Some(p) => p,
            None => {
                return ColumnChoice::Skip;
            },
        };
        if p.less(zero()) {
            return ColumnChoice::Skip;
        }
        let (c, b): (Real, Bounds) = (objective.c[j], model.bounds[j]);
        let value = if zero().less(p) {
            self.quotient_of(c.neg(), p).max(b.lower).min(b.upper)
        } else if zero().less(c) {
            b.lower
        } else if c.less(zero()) {
            b.upper
        } else {
            zero().max(b.lower).min(b.upper)
        };
        if value.is_finite() {
            ColumnChoice::Fix(value)
        } else if p.is_zero() && !c.is_zero() {
            ColumnChoice::Ray(c.signum().neg())
        } else {
            ColumnChoice::Skip
        }
    }

    /// The derivative of an uncoupled variable.
    pub open spec fn slope_at(&self, p: Real, c: Real, x: Real) -> Real {
        self.sum(self.product(p, x), c)
    }

    /// A column that no row stops in one direction can go there, if the objective
    /// does not resist.
    pub open spec fn dual_fix_choice(&self, model: Model, objective: Objective, j: int) -> ColumnChoice {
        let lock = model.locks@[j];
        let (c, b) = (objective.c@[j], model.bounds@[j]);
        if !model.alive@[j] || lock.up > 0 && lock.down > 0 {
            ColumnChoice::Skip
        } else {
            match own_curvature(objective, j) {
                Some(p) if !p.lt(zero()) => if p.zero() && c.zero() {
                    let side = if lock.down == 0 {
                        b.lower
                    } else {
                        b.upper
                    };
                    if side.finite() {
                        ColumnChoice::Fix(side)
                    } else {
                        ColumnChoice::RemoveUnlocked
                    }
                } else if p.zero() && (zero().lt(c) && lock.down == 0 && !b.lower.finite() || c.lt(
                    zero(),
                ) && lock.up == 0 && !b.upper.finite()) {
                    ColumnChoice::Ray(c.unit().opposite())
                } else if lock.down == 0 && b.lower.finite() && self.slope_at(
                    p,
                    c,
                    b.lower,
                ).finite() && zero().le(self.slope_at(p, c, b.lower)) {
                    ColumnChoice::Fix(b.lower)
                } else if lock.up == 0 && b.upper.finite() && self.slope_at(
                    p,
                    c,
                    b.upper,
                ).finite() && self.slope_at(p, c, b.upper).le(zero()) {
                    ColumnChoice::Fix(b.upper)
                } else {
                    ColumnChoice::Skip
                },
                _ => ColumnChoice::Skip,
            }
        }
    }

    pub fn choose_dual_fix(&self, model: &Model, objective: &Objective, j: usize) -> (choice:
        ColumnChoice)
        requires
            self.wf(),
            model.wf(),
            objective.wf(),
            objective.c@.len() == model.bounds@.len(),
            j < model.bounds@.len(),
        ensures
            choice == self.dual_fix_choice(*model, *objective, j as int),
    {
        let lock = model.locks[j];
        if !model.alive[j] || lock.up > 0 && lock.down > 0 {
            return ColumnChoice::Skip;
        }
        let p = match objective.diagonal(j) {
            Some(p) => p,
            None => {
                return ColumnChoice::Skip;
            },
        };
        if p.less(zero()) {
            return ColumnChoice::Skip;
        }
        let (c, b): (Real, Bounds) = (objective.c[j], model.bounds[j]);
        if p.is_zero() && c.is_zero() {
            let side = if lock.down == 0 {
                b.lower
            } else {
                b.upper
            };
            return if side.is_finite() {
                ColumnChoice::Fix(side)
            } else {
                ColumnChoice::RemoveUnlocked
            };
        }
        if p.is_zero() && (zero().less(c) && lock.down == 0 && !b.lower.is_finite() || c.less(
            zero(),
        ) && lock.up == 0 && !b.upper.is_finite()) {
            return ColumnChoice::Ray(c.signum().neg());
        }
        let low = self.sum_of(self.product_of(p, b.lower), c);
        let high = self.sum_of(self.product_of(p, b.upper), c);
        if lock.down == 0 && b.lower.is_finite() && low.is_finite() && zero().at_most(low) {
            ColumnChoice::Fix(b.lower)
        } else if lock.up == 0 && b.upper.is_finite() && high.is_finite() && high.at_most(zero()) {
            ColumnChoice::Fix(b.upper)
        } else {
            ColumnChoice::Skip
        }
    }

    /// The least, or the greatest, derivative of a coupled variable at one of its
    /// bounds, and the magnitude of its terms, from place `k` on.
    pub open spec fn coupled_slope(
        &self,
        terms: Seq<(usize, Real)>,
        bounds: Seq<Bounds>,
        j: usize,
        value: Real,
        side: Side,
        slope: Real,
        size: Real,
        k: int,
    ) -> (Real, Real)
        decreases terms.len() - k,
    {
        if k >= terms.len() {
            (slope, size)
        } else {
            let (l, a) = terms[k];
            let x = if l == j {
                value
            } else if (side is Lower) == zero().lt(a) {
                bounds[l as int].lower
            } else {
                bounds[l as int].upper
            };
            let term = self.product(a, x);
            self.coupled_slope(
                terms,
                bounds,
                j,
                value,
                side,
                self.sum(slope, term),
                self.sum(size, term.absolute()),
                k + 1,
            )
        }
    }

    /// Whether a coupled variable belongs on one of its bounds: nothing stops it
    /// there, and its derivative has a sign that rounding cannot change.
    pub open spec fn coupled_belongs(&self, model: Model, objective: Objective, j: usize, side: Side) -> bool {
        let terms = listing::line(objective.p@, false, j as int);
        let lock = model.locks@[j as int];
        let value = side.of(model.bounds@[j as int]);
        let diagonal = symmetric::value_at(objective.p@, j as int, j as int);
        let c = objective.c@[j as int];
        let (slope, size) = self.coupled_slope(
            terms,
            model.bounds@,
            j,
            value,
            side,
            c,
            c.absolute(),
            0,
        );
        let margin = self.product(Real { bits: RESOLUTION }, size);
        &&& model.alive@[j as int]
        &&& 2 <= terms.len() <= 33
        &&& !diagonal.le(zero())
        &&& value.finite()
        &&& slope.finite()
        &&& match side {
            Side::Lower => lock.down == 0 && margin.lt(slope),
            Side::Upper => lock.up == 0 && slope.lt(margin.opposite()),
        }
    }

    pub fn coupled_fits(&self, model: &Model, objective: &Objective, j: usize, side: Side) -> (b:
        bool)
        requires
            self.wf(),
            model.wf(),
            objective.wf(),
            objective.c@.len() == model.bounds@.len(),
            j < model.bounds@.len(),
        ensures
            b == self.coupled_belongs(*model, *objective, j, side),
    {
        let terms = objective.p.row(j).to_vec();
        proof {
            listing::line_is(terms@, objective.p@, false, j as int);
            objective.p.stored_positions();
            assert forall|k: int| 0 <= k < terms@.len() implies (#[trigger] terms@[k]).0
                < model.bounds@.len() by {
                assert(objective.p@.contains_key(
                    linked::place(false, j as int, terms@[k].0 as int),
                ));
                assert(objective.p@.contains_key((j as int, terms@[k].0 as int)));
            }
        }
        let lock = model.locks[j];
        let value = side.value(model.bounds[j]);
        let diagonal = objective.coefficient(j, j);
        if !model.alive[j] || terms.len() < 2 || terms.len() > 33 || diagonal.at_most(zero())
            || !value.is_finite() {
            return false;
        }
        let mut slope = objective.c[j];
        let mut size = slope.abs();
        let ghost (s0, m0) = (slope, size);
        let mut k: usize = 0;
        while k < terms.len()
            invariant
                k <= terms@.len(),
                self.wf(),
                model::in_range(terms@, model.bounds@.len()),
                self.coupled_slope(terms@, model.bounds@, j, value, side, s0, m0, 0)
                    == self.coupled_slope(
                    terms@,
                    model.bounds@,
                    j,
                    value,
                    side,
                    slope,
                    size,
                    k as int,
                ),
            decreases terms@.len() - k,
        {
            let (l, a): (usize, Real) = terms[k];
            assert(terms@[k as int].0 < model.bounds@.len());
            let x = if l == j {
                value
            } else if (side == Side::Lower) == zero().less(a) {
                model.bounds[l].lower
            } else {
                model.bounds[l].upper
            };
            let term = self.product_of(a, x);
            slope = self.sum_of(slope, term);
            size = self.sum_of(size, term.abs());
            k = k + 1;
        }
        let margin = self.product_of(Real::from_bits(RESOLUTION), size);
        slope.is_finite() && match side {
            Side::Lower => lock.down == 0 && margin.less(slope),
            Side::Upper => lock.up == 0 && slope.less(margin.neg()),
        }
    }

    /// The range of a variable when its row holds with equality at `rhs`.
    pub open spec fn tight_range(
        &self,
        entries: Seq<(usize, Real)>,
        bounds: Seq<Bounds>,
        column: usize,
        pivot: Real,
        rhs: Real,
    ) -> Bounds {
        let up = zero().lt(pivot);
        let low = self.residual_value(entries, bounds, column, up);
        let high = self.residual_value(entries, bounds, column, !up);
        Bounds {
            lower: match low {
                Some(v) => self.quotient(self.difference(rhs, v), pivot),
                None => neg_infinity(),
            },
            upper: match high {
                Some(v) => self.quotient(self.difference(rhs, v), pivot),
                None => infinity(),
            },
        }
    }

    pub fn singleton_range(
        &self,
        entries: &Entries,
        bounds: &Vec<Bounds>,
        column: usize,
        pivot: Real,
        rhs: Real,
    ) -> (r: Bounds)
        requires
            self.wf(),
            model::in_range(entries@, bounds@.len()),
        ensures
            r == self.tight_range(entries@, bounds@, column, pivot, rhs),
    {
        let residual = self.activity_of(entries, bounds, Some(column));
        let (low, high): (Option<Real>, Option<Real>) = if zero().less(pivot) {
            (residual.max.value(), residual.min.value())
        } else {
            (residual.min.value(), residual.max.value())
        };
        Bounds {
            lower: match low {
                Some(v) => self.quotient_of(self.difference_of(rhs, v), pivot),
                None => neg_infinity(),
            },
            upper: match high {
                Some(v) => self.quotient_of(self.difference_of(rhs, v), pivot),
                None => infinity(),
            },
        }
    }

    /// One of the entries exceeds a magnitude.
    pub open spec fn exceeds(entries: Seq<(usize, Real)>, size: Real) -> bool {
        exists|k: int| 0 <= k < entries.len() && size.lt((#[trigger] entries[k]).1.absolute())
    }

    /// The side of its row that a linear column of one entry prefers.
    pub open spec fn preferred_side(&self, c: Real, a: Real, b: Bounds) -> Real {
        let ratio = self.quotient(c, a);
        if zero().lt(ratio) {
            b.lower
        } else if ratio.lt(zero()) {
            b.upper
        } else if b.lower.finite() {
            b.lower
        } else {
            b.upper
        }
    }

    /// What to do with a column of one entry.
    pub open spec fn singleton_choice(&self, model: Model, objective: Objective, j: usize) -> SingletonChoice {
        let column = listing::line(model.a@, true, j as int);
        if !model.alive@[j as int] || column.len() != 1 {
            SingletonChoice::Skip
        } else {
            let (i, a) = column[0];
            let entries = listing::line(model.a@, false, i as int);
            let curved = listing::line(objective.p@, false, j as int).len() > 0;
            let c = objective.c@[j as int];
            match model.rows@[i as int] {
                RowDomain::Linear(b) if entries.len() > 1 => if b.is_equality() {
                    let effective = not_implied(
                        model.bounds@[j as int],
                        self.tight_range(entries, model.bounds@, j, a, b.lower),
                    );
                    if curved && Self::exceeds(entries, a.absolute()) || effective.lower.finite()
                        && effective.upper.finite() {
                        SingletonChoice::Skip
                    } else {
                        SingletonChoice::Equality { row: i, effective }
                    }
                } else {
                    let rhs = self.preferred_side(c, a, b);
                    let effective = not_implied(
                        model.bounds@[j as int],
                        self.tight_range(entries, model.bounds@, j, a, rhs),
                    );
                    let reachable = if zero().lt(c) {
                        !effective.lower.finite()
                    } else if c.lt(zero()) {
                        !effective.upper.finite()
                    } else {
                        trees::unbounded(effective)
                    };
                    if curved || !rhs.finite() || !reachable {
                        SingletonChoice::Skip
                    } else {
                        SingletonChoice::Side { row: i, rhs, effective }
                    }
                },
                _ => SingletonChoice::Skip,
            }
        }
    }

    fn any_larger(entries: &Entries, size: Real) -> (b: bool)
        ensures
            b == Self::exceeds(entries@, size),
    {
        let mut k: usize = 0;
        while k < entries.len()
            invariant
                k <= entries@.len(),
                forall|i: int| 0 <= i < k ==> !size.lt((#[trigger] entries@[i]).1.absolute()),
            decreases entries@.len() - k,
        {
            if size.less(entries[k].1.abs()) {
                return true;
            }
            k = k + 1;
        }
        false
    }

    pub fn choose_singleton(&self, model: &Model, objective: &Objective, j: usize) -> (choice:
        SingletonChoice)
        requires
            self.wf(),
            model.wf(),
            objective.wf(),
            objective.c@.len() == model.bounds@.len(),
            j < model.bounds@.len(),
        ensures
            choice == self.singleton_choice(*model, *objective, j),
            choice matches SingletonChoice::Equality { row, .. } ==> row < model.rows@.len(),
            choice matches SingletonChoice::Side { row, .. } ==> row < model.rows@.len(),
    {
        let column = model.column_entries(j);
        if !model.alive[j] || column.len() != 1 {
            return SingletonChoice::Skip;
        }
        let (i, a): (usize, Real) = column[0];
        assert(column@[0].0 < model.rows@.len());
        let entries = model.row_entries(i);
        let b = match model.rows[i] {
            RowDomain::Linear(b) => b,
            _ => {
                return SingletonChoice::Skip;
            },
        };
        if entries.len() <= 1 {
            return SingletonChoice::Skip;
        }
        let terms = objective.p.row(j).to_vec();
        proof {
            listing::line_is(terms@, objective.p@, false, j as int);
        }
        let curved = terms.len() > 0;
        if b.equality() {
            if curved && Self::any_larger(&entries, a.abs()) {
                return SingletonChoice::Skip;
            }
            let implied = self.singleton_range(&entries, &model.bounds, j, a, b.lower);
            let effective = non_implied_bounds(model.bounds[j], implied);
            if effective.lower.is_finite() && effective.upper.is_finite() {
                return SingletonChoice::Skip;
            }
            return SingletonChoice::Equality { row: i, effective };
        }
        if curved {
            return SingletonChoice::Skip;
        }
        let c = objective.c[j];
        let ratio = self.quotient_of(c, a);
        let rhs = if zero().less(ratio) {
            b.lower
        } else if ratio.less(zero()) {
            b.upper
        } else if b.lower.is_finite() {
            b.lower
        } else {
            b.upper
        };
        if !rhs.is_finite() {
            return SingletonChoice::Skip;
        }
        let implied = self.singleton_range(&entries, &model.bounds, j, a, rhs);
        let effective = non_implied_bounds(model.bounds[j], implied);
        let reachable = if zero().less(c) {
            !effective.lower.is_finite()
        } else if c.less(zero()) {
            !effective.upper.is_finite()
        } else {
            effective.lower.equals(neg_infinity()) && effective.upper.equals(infinity())
        };
        if reachable {
            SingletonChoice::Side { row: i, rhs, effective }
        } else {
            SingletonChoice::Skip
        }
    }

    /// Which variable of an equality `a x_j + b x_k` goes first: by the larger
    /// pivot where the objective is curved, else by the only entry of a column,
    /// a whole ratio, or the shorter column.
    pub open spec fn first_goes<I: Fn(Real) -> bool>(
        &self,
        a: Real,
        b: Real,
        shorter: (nat, nat),
        curved: bool,
        whole: I,
    ) -> bool {
        let (nj, nk) = shorter;
        let (forward, back) = (
            holds(whole, self.quotient(b, a)),
            holds(whole, self.quotient(a, b)),
        );
        if curved && !a.absolute().same(b.absolute()) {
            b.absolute().lt(a.absolute())
        } else if nj == 1 && nk != 1 {
            true
        } else if nk == 1 && nj != 1 {
            false
        } else if forward != back {
            forward
        } else {
            nj < nk
        }
    }

    /// The pivots of a two-variable equality. `whole` tells whether a ratio is a
    /// whole number.
    pub open spec fn doubleton_choice<I: Fn(Real) -> bool>(
        &self,
        model: Model,
        objective: Objective,
        i: int,
        whole: I,
    ) -> Option<DoubletonChoice> {
        let entries = listing::line(model.a@, false, i);
        match model.rows@[i] {
            RowDomain::Linear(s) if s.is_equality() && entries.len() == 2 => {
                let ((j, a), (k, b)) = (entries[0], entries[1]);
                let curved = listing::line(objective.p@, false, j as int).len() > 0
                    || listing::line(objective.p@, false, k as int).len() > 0;
                let lengths = (
                    linked::line_items(model.a@, true, j as int).len(),
                    linked::line_items(model.a@, true, k as int).len(),
                );
                let (first, second, ratio) = if self.first_goes(a, b, lengths, curved, whole) {
                    (j, k, self.quotient(b, a))
                } else {
                    (k, j, self.quotient(a, b))
                };
                if ratio.finite() && (Real { bits: SMALL_RATIO }).le(ratio.absolute())
                    && ratio.absolute().le(Real { bits: LARGE_RATIO }) {
                    Some(
                        DoubletonChoice {
                            first,
                            second: if curved {
                                None
                            } else {
                                Some(second)
                            },
                        },
                    )
                } else {
                    None
                }
            },
            _ => None,
        }
    }

    pub fn choose_doubleton<I: Fn(Real) -> bool>(
        &self,
        model: &Model,
        objective: &Objective,
        i: usize,
        whole: &I,
    ) -> (choice: Option<DoubletonChoice>)
        requires
            self.wf(),
            model.wf(),
            objective.wf(),
            objective.c@.len() == model.bounds@.len(),
            i < model.rows@.len(),
            decides(*whole),
        ensures
            choice == self.doubleton_choice(*model, *objective, i as int, *whole),
            choice matches Some(c) ==> c.first < model.bounds@.len() && (c.second matches Some(k)
                ==> k < model.bounds@.len()),
    {
        let equality = match model.rows[i] {
            RowDomain::Linear(s) => s.equality(),
            _ => false,
        };
        let entries = model.row_entries(i);
        if !equality || entries.len() != 2 {
            return None;
        }
        let (j, a): (usize, Real) = entries[0];
        let (k, b): (usize, Real) = entries[1];
        assert(entries@[0].0 < model.bounds@.len() && entries@[1].0 < model.bounds@.len());
        let (pj, pk): (Entries, Entries) = (
            objective.p.row(j).to_vec(),
            objective.p.row(k).to_vec(),
        );
        proof {
            listing::line_is(pj@, objective.p@, false, j as int);
            listing::line_is(pk@, objective.p@, false, k as int);
        }
        let curved = pj.len() > 0 || pk.len() > 0;
        let (nj, nk): (usize, usize) = (model.a.column(j).len(), model.a.column(k).len());
        let (down, up): (Real, Real) = (self.quotient_of(b, a), self.quotient_of(a, b));
        let (forward, back): (bool, bool) = (whole(down), whole(up));
        assert(forward == holds(*whole, down) && back == holds(*whole, up));
        let goes = if curved && !a.abs().equals(b.abs()) {
            b.abs().less(a.abs())
        } else if nj == 1 && nk != 1 {
            true
        } else if nk == 1 && nj != 1 {
            false
        } else if forward != back {
            forward
        } else {
            nj < nk
        };
        let (first, second, ratio): (usize, usize, Real) = if goes {
            (j, k, down)
        } else {
            (k, j, up)
        };
        if ratio.is_finite() && Real::from_bits(SMALL_RATIO).at_most(ratio.abs())
            && ratio.abs().at_most(Real::from_bits(LARGE_RATIO)) {
            Some(
                DoubletonChoice {
                    first,
                    second: if curved {
                        None
                    } else {
                        Some(second)
                    },
                },
            )
        } else {
            None
        }
    }
}

/// What a test says of a value.
pub open spec fn holds<I: Fn(Real) -> bool>(test: I, v: Real) -> bool {
    choose|b: bool| call_ensures(test, (v,), b)
}

/// A test of the value alone.
pub open spec fn decides<I: Fn(Real) -> bool>(test: I) -> bool {
    &&& forall|v: Real| #[trigger] call_requires(test, (v,))
    &&& forall|v: Real, a: bool, b: bool| #[trigger]
        call_ensures(test, (v,), a) && #[trigger] call_ensures(test, (v,), b) ==> a == b
}

/// A pivot of an equality: bounded ones last, then by the length of the column,
/// then by its number.
#[derive(Clone, Copy, Debug, PartialEq, Eq, Structural)]
pub struct Pivot {
    pub bounded: bool,
    pub degree: usize,
    pub column: usize,
}

pub open spec fn pivot_before(a: Pivot, b: Pivot) -> bool {
    if a.bounded != b.bounded {
        b.bounded
    } else if a.degree != b.degree {
        a.degree < b.degree
    } else {
        a.column < b.column
    }
}

/// An entry that may serve as the pivot: as large as any, in a column of a
/// permitted length, with the permitted kinds of variable.
pub open spec fn may_pivot(
    model: Model,
    objective: Objective,
    options: EqualitySettings,
    largest: Real,
    entry: (usize, Real),
) -> Option<Pivot> {
    let j = entry.0 as int;
    let degree = linked::line_items(model.a@, true, j).len();
    let bounded = !trees::unbounded(model.bounds@[j]);
    if options.require_free_variable && bounded || options.require_linear_variable
        && listing::line(objective.p@, false, j).len() > 0 || degree < options.min_column_length
        || degree > options.max_column_length || !entry.1.absolute().same(largest) {
        None
    } else {
        Some(Pivot { bounded, degree: degree as usize, column: entry.0 })
    }
}

/// The best pivot of a short equality, from place `k` on.
pub open spec fn best_pivot(
    model: Model,
    objective: Objective,
    options: EqualitySettings,
    entries: Seq<(usize, Real)>,
    largest: Real,
    best: Option<Pivot>,
    k: int,
) -> Option<Pivot>
    decreases entries.len() - k,
{
    if k >= entries.len() {
        best
    } else {
        best_pivot(
            model,
            objective,
            options,
            entries,
            largest,
            match (may_pivot(model, objective, options, largest, entries[k]), best) {
                (None, _) => best,
                (Some(p), None) => Some(p),
                (Some(p), Some(b)) => if pivot_before(p, b) {
                    Some(p)
                } else {
                    Some(b)
                },
            },
            k + 1,
        )
    }
}

/// The pivot of a short equality, if it has one.
pub open spec fn short_pivot(
    model: Model,
    objective: Objective,
    options: EqualitySettings,
    i: int,
) -> Option<Pivot> {
    let entries = listing::line(model.a@, false, i);
    match model.rows@[i] {
        RowDomain::Linear(b) if b.is_equality() && 3 <= entries.len() <= options.max_row_length =>
            best_pivot(
            model,
            objective,
            options,
            entries,
            sparsify::largest(entries, zero(), 0),
            None,
            0,
        ),
        _ => None,
    }
}

/// Choose the pivot of an equality with three entries or more.
pub fn choose_short_pivot(
    model: &Model,
    objective: &Objective,
    options: EqualitySettings,
    i: usize,
) -> (pivot: Option<Pivot>)
    requires
        model.wf(),
        objective.wf(),
        objective.c@.len() == model.bounds@.len(),
        i < model.rows@.len(),
    ensures
        pivot == short_pivot(*model, *objective, options, i as int),
        pivot matches Some(p) ==> p.column < model.bounds@.len(),
{
    let equality = match model.rows[i] {
        RowDomain::Linear(b) => b.equality(),
        _ => false,
    };
    let entries = model.row_entries(i);
    if !equality || entries.len() < 3 || entries.len() > options.max_row_length {
        return None;
    }
    let largest = sparsify::largest_of(&entries);
    let mut best: Option<Pivot> = None;
    let mut k: usize = 0;
    while k < entries.len()
        invariant
            k <= entries@.len(),
            model.wf(),
            objective.wf(),
            objective.c@.len() == model.bounds@.len(),
            model::in_range(entries@, model.bounds@.len()),
            best matches Some(p) ==> p.column < model.bounds@.len(),
            best_pivot(*model, *objective, options, entries@, largest, None, 0) == best_pivot(
                *model,
                *objective,
                options,
                entries@,
                largest,
                best,
                k as int,
            ),
        decreases entries@.len() - k,
    {
        let (j, a): (usize, Real) = entries[k];
        assert(entries@[k as int].0 < model.bounds@.len());
        let degree: usize = model.a.column(j).len();
        let b = model.bounds[j];
        let bounded = !(b.lower.equals(neg_infinity()) && b.upper.equals(infinity()));
        let terms = objective.p.row(j).to_vec();
        proof {
            listing::line_is(terms@, objective.p@, false, j as int);
        }
        if !(options.require_free_variable && bounded || options.require_linear_variable
            && terms.len() > 0 || degree < options.min_column_length || degree
            > options.max_column_length || !a.abs().equals(largest)) {
            let p = Pivot { bounded, degree, column: j };
            best = match best {
                None => Some(p),
                Some(held) => {
                    let better = if p.bounded != held.bounded {
                        held.bounded
                    } else if p.degree != held.degree {
                        p.degree < held.degree
                    } else {
                        p.column < held.column
                    };
                    if better {
                        Some(p)
                    } else {
                        Some(held)
                    }
                },
            };
        }
        k = k + 1;
    }
    best
}

} // verus!
