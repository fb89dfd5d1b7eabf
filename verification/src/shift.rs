//! Replacing an implied one-sided variable bound by a doubleton inequality.
//! The invertible coordinate change keeps both variables, but removes the row.

use crate::arithmetic::Arithmetic;
use crate::batch::{self, RowUpdate};
use crate::bounds::{Bounds, RowDomain};
use crate::eliminate::{self, NewRow};
use crate::linked::{self, Entries, NONE};
use crate::listing;
use crate::model::{self, Model};
use crate::number::{infinity, neg_infinity, one, zero, Real};
use crate::objective::{self, Objective};
use crate::tape::Rule;
use crate::passes::{self, Work};
use vstd::prelude::*;

verus! {

/// The bit pattern of one trillionth.
pub const SMALL_SHARE: u64 = 0x3d719799812dea11;

#[derive(Clone, Copy, Debug, PartialEq, Eq, Structural)]
pub struct ShiftOptions {
    /// Bound on a slope and on its reciprocal.
    pub max_ratio: Real,
    pub max_column_length: usize,
    /// Maximum newly introduced coefficients per shift.
    pub max_fill: usize,
}

/// A shift of a variable: `x_column = s + slope x_other + offset`, where `s` is
/// nonnegative, or nonpositive.
#[derive(Clone, Copy, Debug, PartialEq, Eq, Structural)]
pub struct Shift {
    pub column: usize,
    pub other: usize,
    pub row: usize,
    pub pivot: Real,
    pub slope: Real,
    pub offset: Real,
    /// Whether the row bounds the variable from below.
    pub lower: bool,
}

impl Shift {
    /// What the tape keeps of a shift.
    pub open spec fn record(self) -> Rule {
        Rule::BoundShift {
            column: self.column,
            other: self.other,
            row: self.row,
            pivot: self.pivot,
            slope: self.slope,
            offset: self.offset,
        }
    }
}

/// What a shift makes of the problem.
pub ghost struct Shifted {
    pub cost: Real,
    pub constant: Real,
    pub rows: Seq<NewRow>,
}

/// A shift, worked out.
pub struct ShiftPlan {
    pub cost: Real,
    pub constant: Real,
    pub updates: Vec<RowUpdate>,
}

/// The value of an index in a sorted list, zero where it has none.
pub open spec fn value_of(entries: Seq<(usize, Real)>, j: usize) -> Real
    decreases entries.len(),
{
    if entries.len() == 0 {
        zero()
    } else if entries[0].0 < j {
        value_of(entries.skip(1), j)
    } else if entries[0].0 == j {
        entries[0].1
    } else {
        zero()
    }
}

/// A sorted list with one value set; a zero is not stored.
pub open spec fn with_value(entries: Seq<(usize, Real)>, j: usize, v: Real) -> Seq<(usize, Real)>
    decreases entries.len(),
{
    let one_entry = if v.zero() {
        Seq::empty()
    } else {
        seq![(j, v)]
    };
    if entries.len() == 0 {
        one_entry
    } else if entries[0].0 < j {
        seq![entries[0]] + with_value(entries.skip(1), j, v)
    } else if entries[0].0 == j {
        one_entry + entries.skip(1)
    } else {
        one_entry + entries
    }
}

proof fn place_of(entries: Seq<(usize, Real)>, j: usize, v: Real, k: int)
    requires
        0 <= k <= entries.len(),
        forall|a: int| 0 <= a < k ==> (#[trigger] entries[a]).0 < j,
    ensures
        with_value(entries, j, v) == entries.take(k) + with_value(entries.skip(k), j, v),
        value_of(entries, j) == value_of(entries.skip(k), j),
    decreases k,
{
    if k == 0 {
        assert(entries.skip(0) =~= entries);
        assert(entries.take(0) + with_value(entries, j, v) =~= with_value(entries, j, v));
    } else {
        let rest = entries.skip(1);
        assert(entries[0].0 < j);
        assert forall|a: int| 0 <= a < k - 1 implies (#[trigger] rest[a]).0 < j by {
            assert(rest[a] == entries[a + 1]);
        }
        place_of(rest, j, v, k - 1);
        assert(rest.skip(k - 1) =~= entries.skip(k));
        assert(seq![entries[0]] + (rest.take(k - 1) + with_value(entries.skip(k), j, v))
            =~= entries.take(k) + with_value(entries.skip(k), j, v));
    }
}

fn place(entries: &Entries, j: usize) -> (k: usize)
    requires
        linked::sorted_entries(entries@, usize::MAX as nat + 1),
    ensures
        k <= entries@.len(),
        forall|a: int| 0 <= a < k ==> (#[trigger] entries@[a]).0 < j,
        k < entries@.len() ==> entries@[k as int].0 >= j,
        value_of(entries@, j) == (if k < entries@.len() && entries@[k as int].0 == j {
            entries@[k as int].1
        } else {
            zero()
        }),
{
    let mut k: usize = 0;
    while k < entries.len() && entries[k].0 < j
        invariant
            k <= entries@.len(),
            forall|a: int| 0 <= a < k ==> (#[trigger] entries@[a]).0 < j,
        decreases entries@.len() - k,
    {
        k = k + 1;
    }
    proof {
        place_of(entries@, j, zero(), k as int);
        if k < entries@.len() {
            assert(entries@.skip(k as int)[0] == entries@[k as int]);
        }
    }
    k
}

#[verifier::rlimit(60)]
#[verifier::spinoff_prover]
pub(crate) fn put_value(entries: Entries, j: usize, v: Real, Ghost(limit): Ghost<nat>) -> (out: Entries)
    requires
        linked::sorted_entries(entries@, limit),
        limit <= usize::MAX as nat + 1,
        j < limit,
    ensures
        out@ == with_value(entries@, j, v),
        linked::sorted_entries(out@, limit),
{
    let ghost start = entries@;
    let k: usize = place(&entries, j);
    let mut out = entries;
    proof {
        place_of(start, j, v, k as int);
        if k < start.len() {
            assert(start.skip(k as int)[0] == start[k as int]);
            assert(start.skip(k as int).skip(1) =~= start.skip(k + 1));
        }
    }
    if k < out.len() && out[k].0 == j {
        if v.is_zero() {
            let gone = out.remove(k);
            assert(out@ =~= start.take(k as int) + with_value(start.skip(k as int), j, v));
            assert forall|a: int| 0 <= a < out@.len() implies #[trigger] out@[a] == (if a < k {
                start[a]
            } else {
                start[a + 1]
            }) by {}
        } else {
            out.set(k, (j, v));
            assert(out@ =~= start.take(k as int) + with_value(start.skip(k as int), j, v));
        }
    } else if !v.is_zero() {
        out.insert(k, (j, v));
        assert(out@ =~= start.take(k as int) + with_value(start.skip(k as int), j, v));
        assert forall|a: int| 0 <= a < out@.len() implies #[trigger] out@[a] == (if a < k {
            start[a]
        } else if a == k {
            (j, v)
        } else {
            start[a - 1]
        }) by {}
        assert forall|a: int, b: int| 0 <= a < b < out@.len() implies (#[trigger] out@[a]).0 < (
        #[trigger] out@[b]).0 by {
            if a < k && b > k {
                assert(start[a].0 < start[b - 1].0);
            } else if a > k {
                assert(start[a - 1].0 < start[b - 1].0);
            } else if a == k {
                assert(start[k as int].0 > j);
                if b - 1 > k {
                    assert(start[k as int].0 < start[b - 1].0);
                }
            } else if b < k {
                assert(start[a].0 < start[b].0);
            }
        }
    } else {
        assert(out@ =~= start.take(k as int) + with_value(start.skip(k as int), j, v));
    }
    out
}

impl<
    P: Fn(Real, Real) -> Real,
    T: Fn(Real, Real) -> Real,
    D: Fn(Real, Real) -> Real,
    H: Fn(Real, Real) -> Real,
> Arithmetic<P, T, D, H> {
    /// A product that loses nothing: finite, and zero only with a zero factor.
    pub open spec fn kept_product(&self, a: Real, b: Real) -> Option<Real> {
        let value = self.product(a, b);
        if value.finite() && (!value.zero() || a.zero() || b.zero()) {
            Some(value)
        } else {
            None
        }
    }

    pub fn kept_product_of(&self, a: Real, b: Real) -> (r: Option<Real>)
        requires
            self.wf(),
        ensures
            r == self.kept_product(a, b),
    {
        let value = self.product_of(a, b);
        if value.is_finite() && (!value.is_zero() || a.is_zero() || b.is_zero()) {
            Some(value)
        } else {
            None
        }
    }

    /// The slope and the offset are exact and well scaled.
    pub open spec fn ratio_fits(
        &self,
        pivot: Real,
        coefficient: Real,
        rhs: Real,
        slope: Real,
        offset: Real,
        max_ratio: Real,
    ) -> bool {
        &&& offset.finite()
        &&& slope.finite()
        &&& !max_ratio.lt(slope.absolute())
        &&& !slope.absolute().lt(self.quotient(one(), max_ratio))
        &&& self.product(slope, pivot).same(coefficient.opposite())
        &&& self.product(offset, pivot).same(rhs)
    }

    /// The least, or greatest, value that the row leaves the variable.
    pub open spec fn shift_extreme(&self, shift: Shift, bounds: Bounds) -> Option<Real> {
        let endpoint = if shift.lower == zero().lt(shift.slope) {
            bounds.lower
        } else {
            bounds.upper
        };
        if endpoint.finite() {
            match self.kept_product(shift.slope, endpoint) {
                Some(term) => Some(self.sum(term, shift.offset)),
                None => None,
            }
        } else {
            Some(self.sum(self.product(shift.slope, endpoint), shift.offset))
        }
    }

    fn extreme_of(&self, shift: Shift, bounds: Bounds) -> (r: Option<Real>)
        requires
            self.wf(),
        ensures
            r == self.shift_extreme(shift, bounds),
    {
        let endpoint = if shift.lower == zero().less(shift.slope) {
            bounds.lower
        } else {
            bounds.upper
        };
        if endpoint.is_finite() {
            match self.kept_product_of(shift.slope, endpoint) {
                Some(term) => Some(self.sum_of(term, shift.offset)),
                None => None,
            }
        } else {
            Some(self.sum_of(self.product_of(shift.slope, endpoint), shift.offset))
        }
    }

    /// The shift that a one-sided doubleton row offers with one of its variables
    /// as pivot: that variable has no curvature, no side other than the one the
    /// row bounds, and the row implies its own bound.
    pub open spec fn shift_offered(
        &self,
        model: Model,
        objective: Objective,
        row: usize,
        index: int,
        options: ShiftOptions,
    ) -> Option<Shift> {
        let entries = listing::line(model.a@, false, row as int);
        let (column, pivot) = entries[index];
        let (other, coefficient) = entries[1 - index];
        match model.rows@[row as int] {
            RowDomain::Linear(domain) => {
                let lower = zero().lt(pivot) == domain.lower.finite();
                let own = model.bounds@[column as int];
                let rhs = if domain.lower.finite() {
                    domain.lower
                } else {
                    domain.upper
                };
                let offset = self.quotient(rhs, pivot);
                let slope = self.quotient(coefficient.opposite(), pivot);
                let shift = Shift { column, other, row, pivot, slope, offset, lower };
                if linked::line_items(objective.p@, false, column as int).len() > 0
                    || linked::line_items(model.a@, true, column as int).len()
                    > options.max_column_length || (lower && own.upper.finite()) || (!lower
                    && own.lower.finite()) || !self.ratio_fits(
                    pivot,
                    coefficient,
                    rhs,
                    slope,
                    offset,
                    options.max_ratio,
                ) {
                    None
                } else {
                    match self.shift_extreme(shift, model.bounds@[other as int]) {
                        Some(extreme) => if (lower && extreme.lt(own.lower)) || (!lower
                            && own.upper.lt(extreme)) || extreme.nan() {
                            None
                        } else {
                            Some(shift)
                        },
                        None => None,
                    }
                }
            },
            _ => None,
        }
    }

    fn offer(
        &self,
        model: &Model,
        objective: &Objective,
        row: usize,
        entries: &Entries,
        index: usize,
        options: ShiftOptions,
    ) -> (r: Option<Shift>)
        requires
            self.wf(),
            model.wf(),
            objective.wf(),
            objective.c@.len() == model.bounds@.len(),
            row < model.rows@.len(),
            entries@ == listing::line(model.a@, false, row as int),
            linked::sorted_entries(entries@, model.a.column_count()),
            entries@.len() == 2,
            index < 2,
        ensures
            r == self.shift_offered(*model, *objective, row, index as int, options),
            r matches Some(shift) ==> shift.column < model.bounds@.len() && shift.other
                < model.bounds@.len() && shift.row == row,
    {
        let (column, pivot): (usize, Real) = entries[index];
        let (other, coefficient): (usize, Real) = entries[1 - index];
        assert(entries@[index as int].0 < model.a.column_count());
        assert(entries@[1 - index].0 < model.a.column_count());
        let domain = match model.rows[row] {
            RowDomain::Linear(b) => b,
            _ => {
                return None;
            },
        };
        if !objective.p.column(column).is_empty() || model.a.column(column).len()
            > options.max_column_length {
            return None;
        }
        let lower = zero().less(pivot) == domain.lower.is_finite();
        let own = model.bounds[column];
        if (lower && own.upper.is_finite()) || (!lower && own.lower.is_finite()) {
            return None;
        }
        let rhs = if domain.lower.is_finite() {
            domain.lower
        } else {
            domain.upper
        };
        let offset = self.quotient_of(rhs, pivot);
        let slope = self.quotient_of(coefficient.neg(), pivot);
        if !offset.is_finite() || !slope.is_finite() || options.max_ratio.less(slope.abs())
            || slope.abs().less(self.quotient_of(one(), options.max_ratio)) || !self.product_of(
            slope,
            pivot,
        ).equals(coefficient.neg()) || !self.product_of(offset, pivot).equals(rhs) {
            return None;
        }
        let shift = Shift { column, other, row, pivot, slope, offset, lower };
        match self.extreme_of(shift, model.bounds[other]) {
            Some(extreme) => if (lower && extreme.less(own.lower)) || (!lower && own.upper.less(
                extreme,
            )) || extreme.is_nan() {
                None
            } else {
                Some(shift)
            },
            None => None,
        }
    }

    /// The new rows of the first entries of the column, without the row of the
    /// shift itself.
    pub open spec fn shifted_rows(
        &self,
        model: Model,
        shift: Shift,
        entries: Seq<(usize, Real)>,
        max_fill: nat,
    ) -> Option<(Seq<NewRow>, nat)>
        decreases entries.len(),
    {
        if entries.len() == 0 {
            Some((Seq::empty(), 0))
        } else {
            match self.shifted_rows(model, shift, entries.drop_last(), max_fill) {
                None => None,
                Some((rows, fill)) => {
                    let (i, value) = entries.last();
                    if i == shift.row {
                        Some((rows, fill))
                    } else {
                        match self.shifted_row(model, shift, i, value) {
                            Some(new) => {
                                let filled = fill + new.1;
                                if filled > max_fill {
                                    None
                                } else {
                                    Some((rows.push(new.0), filled))
                                }
                            },
                            None => None,
                        }
                    }
                },
            }
        }
    }

    /// One new row, and the coefficients it gains.
    pub open spec fn shifted_row(&self, model: Model, shift: Shift, i: usize, value: Real) -> Option<
        (NewRow, nat),
    > {
        let own = listing::line(model.a@, false, i as int);
        let before = value_of(own, shift.other);
        match (self.kept_product(shift.offset, value), self.kept_product(shift.slope, value)) {
            (Some(move_by), Some(addition)) => {
                let next = self.sum(before, addition);
                match self.domain_shifted(model.rows@[i as int], move_by) {
                    Some(domain) => if !(model.rows@[i as int] is Linear) || self.wiped(
                        next,
                        before,
                        addition,
                        Real { bits: SMALL_SHARE },
                    ) {
                        None
                    } else {
                        Some(
                            (
                                (i, with_value(own, shift.other, next), domain),
                                if before.zero() && !next.zero() {
                                    1
                                } else {
                                    0
                                },
                            ),
                        )
                    },
                    None => None,
                }
            },
            _ => None,
        }
    }

    proof fn shifted_rows_refuse(
        &self,
        model: Model,
        shift: Shift,
        entries: Seq<(usize, Real)>,
        max_fill: nat,
        n: int,
    )
        requires
            0 <= n <= entries.len(),
            self.shifted_rows(model, shift, entries.take(n), max_fill) is None,
        ensures
            self.shifted_rows(model, shift, entries, max_fill) is None,
        decreases entries.len(),
    {
        if n < entries.len() {
            assert(entries.drop_last().take(n) =~= entries.take(n));
            self.shifted_rows_refuse(model, shift, entries.drop_last(), max_fill, n);
        } else {
            assert(entries.take(n) =~= entries);
        }
    }

    fn shift_row(&self, model: &Model, shift: Shift, i: usize, value: Real) -> (r: Option<
        (RowUpdate, usize),
    >)
        requires
            self.wf(),
            model.wf(),
            i < model.rows@.len(),
            shift.other < model.bounds@.len(),
        ensures
            match r {
                Some((update, gained)) => {
                    &&& self.shifted_row(*model, shift, i, value) == Some(
                        ((update.0, update.1@, update.2), gained as nat),
                    )
                    &&& update.0 == i
                    &&& gained <= 1
                    &&& linked::sorted_entries(update.1@, model.a.column_count())
                    &&& update.2 is Linear
                },
                None => self.shifted_row(*model, shift, i, value) is None,
            },
    {
        let linear = match model.rows[i] {
            RowDomain::Linear(_) => true,
            _ => false,
        };
        if !linear {
            return None;
        }
        let move_by = match self.kept_product_of(shift.offset, value) {
            Some(v) => v,
            None => {
                return None;
            },
        };
        let domain = match self.shifted(model.rows[i], move_by) {
            Some(d) => d,
            None => {
                return None;
            },
        };
        let own = model.row_entries(i);
        proof {
            model.a.counts_fit();
        }
        let at: usize = place(&own, shift.other);
        let before = if at < own.len() && own[at].0 == shift.other {
            own[at].1
        } else {
            zero()
        };
        let addition = match self.kept_product_of(shift.slope, value) {
            Some(v) => v,
            None => {
                return None;
            },
        };
        let next = self.sum_of(before, addition);
        if self.wipes(next, before, addition, Real { bits: SMALL_SHARE }) {
            return None;
        }
        let gained: usize = if before.is_zero() && !next.is_zero() {
            1
        } else {
            0
        };
        let entries = put_value(own, shift.other, next, Ghost(model.a.column_count()));
        Some(((i, entries, domain), gained))
    }

    /// What a shift makes of rows and objective.
    pub open spec fn shift_planned(
        &self,
        model: Model,
        objective: Objective,
        shift: Shift,
        options: ShiftOptions,
    ) -> Option<Shifted> {
        let own = objective.c@[shift.column as int];
        match (self.kept_product(shift.slope, own), self.kept_product(shift.offset, own)) {
            (Some(moved), Some(rest)) => {
                let cost = self.sum(objective.c@[shift.other as int], moved);
                let constant = self.sum(objective.constant, rest);
                if !cost.finite() || !constant.finite() {
                    None
                } else {
                    match self.shifted_rows(
                        model,
                        shift,
                        listing::line(model.a@, true, shift.column as int),
                        options.max_fill as nat,
                    ) {
                        Some((rows, _)) => Some(Shifted { cost, constant, rows }),
                        None => None,
                    }
                }
            },
            _ => None,
        }
    }

    /// Work out a shift. A deadline may end the work without a result.
    pub fn plan_shift<E: Fn() -> bool>(
        &self,
        model: &Model,
        objective: &Objective,
        shift: Shift,
        options: ShiftOptions,
        expired: &E,
    ) -> (r: Option<ShiftPlan>)
        requires
            self.wf(),
            model.wf(),
            objective.wf(),
            objective.c@.len() == model.bounds@.len(),
            shift.column < model.bounds@.len(),
            shift.other < model.bounds@.len(),
            call_requires(*expired, ()),
        ensures
            match r {
                Some(plan) => {
                    &&& self.shift_planned(*model, *objective, shift, options) == Some(
                        Shifted {
                            cost: plan.cost,
                            constant: plan.constant,
                            rows: eliminate::new_rows(plan.updates@),
                        },
                    )
                    &&& batch::applicable(
                        plan.updates@,
                        model.rows@.len(),
                        model.a.column_count(),
                    )
                    &&& forall|u: int|
                        0 <= u < plan.updates@.len() ==> (#[trigger] plan.updates@[u]).0
                            != shift.row
                },
                None => self.shift_planned(*model, *objective, shift, options) is None
                    || call_ensures(*expired, (), true),
            },
    {
        let own = objective.c[shift.column];
        let moved = match self.kept_product_of(shift.slope, own) {
            Some(v) => v,
            None => {
                return None;
            },
        };
        let rest = match self.kept_product_of(shift.offset, own) {
            Some(v) => v,
            None => {
                return None;
            },
        };
        let cost = self.sum_of(objective.c[shift.other], moved);
        let constant = self.sum_of(objective.constant, rest);
        if !cost.is_finite() || !constant.is_finite() {
            return None;
        }
        let entries = model.column_entries(shift.column);
        let mut updates: Vec<RowUpdate> = Vec::new();
        let mut fill: usize = 0;
        let mut k: usize = 0;
        assert(entries@.take(0) =~= Seq::<(usize, Real)>::empty());
        assert(eliminate::new_rows(updates@) =~= Seq::<NewRow>::empty());
        while k < entries.len()
            invariant
                k <= entries@.len(),
                self.wf(),
                model.wf(),
                call_requires(*expired, ()),
                shift.other < model.bounds@.len(),
                shift.column < model.bounds@.len(),
                entries@ == listing::line(model.a@, true, shift.column as int),
                cost.finite() && constant.finite(),
                self.kept_product(shift.slope, objective.c@[shift.column as int]) == Some(moved),
                self.kept_product(shift.offset, objective.c@[shift.column as int]) == Some(rest),
                cost == self.sum(objective.c@[shift.other as int], moved),
                constant == self.sum(objective.constant, rest),
                linked::sorted_entries(entries@, model.a.row_count()),
                fill <= options.max_fill,
                self.shifted_rows(
                    *model,
                    shift,
                    entries@.take(k as int),
                    options.max_fill as nat,
                ) == Some((eliminate::new_rows(updates@), fill as nat)),
                batch::applicable(updates@, model.rows@.len(), model.a.column_count()),
                forall|u: int|
                    0 <= u < updates@.len() ==> (#[trigger] updates@[u]).0 != shift.row && (k
                        < entries@.len() ==> updates@[u].0 < entries@[k as int].0),
            decreases entries@.len() - k,
        {
            if expired() {
                return None;
            }
            let (i, value): (usize, Real) = entries[k];
            assert(entries@[k as int].0 < model.a.row_count());
            proof {
                assert(entries@.take(k + 1).drop_last() =~= entries@.take(k as int));
                assert(entries@.take(k + 1).last() == (i, value));
                if k + 1 < entries@.len() {
                    assert(entries@[k as int].0 < entries@[k + 1].0);
                }
            }
            if i != shift.row {
                match self.shift_row(model, shift, i, value) {
                    Some((update, gained)) => {
                        if gained > options.max_fill - fill {
                            proof {
                                self.shifted_rows_refuse(
                                    *model,
                                    shift,
                                    entries@,
                                    options.max_fill as nat,
                                    k + 1,
                                );
                            }
                            return None;
                        }
                        fill = fill + gained;
                        let ghost before = updates@;
                        let ghost new = (update.0, update.1@, update.2);
                        updates.push(update);
                        proof {
                            assert(eliminate::new_rows(updates@) =~= eliminate::new_rows(
                                before,
                            ).push(new));
                            assert forall|u: int, v: int| 0 <= u < v < updates@.len() implies (
                            #[trigger] updates@[u]).0 != (#[trigger] updates@[v]).0 by {
                                if v == before.len() {
                                    assert(before[u].0 < entries@[k as int].0);
                                }
                            }
                        }
                    },
                    None => {
                        proof {
                            self.shifted_rows_refuse(
                                *model,
                                shift,
                                entries@,
                                options.max_fill as nat,
                                k + 1,
                            );
                        }
                        return None;
                    },
                }
            }
            k = k + 1;
        }
        assert(entries@.take(k as int) =~= entries@);
        Some(ShiftPlan { cost, constant, updates })
    }
}

/// The interval of the shifted variable.
pub open spec fn half_line(lower: bool) -> Bounds {
    if lower {
        Bounds { lower: zero(), upper: infinity() }
    } else {
        Bounds { lower: neg_infinity(), upper: zero() }
    }
}

/// Rows and bounds after a shift: the other rows of the column are rewritten,
/// the row of the shift is gone, and the variable has a half line.
pub open spec fn shift_applied(
    before: Model,
    after: Model,
    costs: Objective,
    new_costs: Objective,
    shift: Shift,
    plan: Shifted,
) -> bool {
    &&& new_costs.p@ == costs.p@
    &&& new_costs.c@ == costs.c@.update(shift.other as int, plan.cost)
    &&& new_costs.constant == plan.constant
    &&& after.bounds@ == before.bounds@.update(shift.column as int, half_line(shift.lower))
    &&& after.alive@ == before.alive@
    &&& after.tape@ == before.tape@.push(shift.record())
    &&& exists|updates: Seq<RowUpdate>, middle: Map<(int, int), Real>|
        {
            &&& eliminate::new_rows(updates) == plan.rows
            &&& #[trigger] batch::updated_matrix(middle, before.a@, updates)
            &&& linked::row_replaced(after.a@, middle, shift.row as int, Seq::empty())
            &&& after.rows@ == batch::updated_domains(before.rows@, updates, updates.len()).update(
                shift.row as int,
                RowDomain::Deleted,
            )
        }
}

/// The work that a shift may cost: one for each coefficient in the rows of the
/// column, and one for each row.
pub open spec fn shift_cost(model: Model, entries: Seq<(usize, Real)>) -> nat
    decreases entries.len(),
{
    if entries.len() == 0 {
        0
    } else {
        shift_cost(model, entries.drop_last()) + linked::line_items(
            model.a@,
            false,
            entries.last().0 as int,
        ).len() + 1
    }
}

fn cost_of(model: &Model, column: usize) -> (n: u128)
    requires
        model.wf(),
        column < model.bounds@.len(),
    ensures
        n == shift_cost(*model, listing::line(model.a@, true, column as int)),
{
    let entries = model.column_entries(column);
    let mut n: u128 = 0;
    let mut k: usize = 0;
    assert(entries@.take(0) =~= Seq::<(usize, Real)>::empty());
    assert(entries.len() == entries@.len());
    while k < entries.len()
        invariant
            k <= entries@.len() <= usize::MAX,
            model.wf(),
            linked::sorted_entries(entries@, model.a.row_count()),
            n <= k * (usize::MAX as u128 + 1),
            n == shift_cost(*model, entries@.take(k as int)),
        decreases entries@.len() - k,
    {
        assert(entries@[k as int].0 < model.a.row_count());
        proof {
            assert(entries@.take(k + 1).drop_last() =~= entries@.take(k as int));
            assert(entries@.take(k + 1).last() == entries@[k as int]);
            assert((k + 1) * (usize::MAX as u128 + 1) == k * (usize::MAX as u128 + 1) + usize::MAX
                + 1) by (nonlinear_arith);
            assert((k + 1) * (usize::MAX as u128 + 1) <= u128::MAX) by (nonlinear_arith)
                requires
                    k + 1 <= usize::MAX,
            ;
        }
        n = n + model.a.row(entries[k].0).len() as u128 + 1;
        k = k + 1;
    }
    assert(entries@.take(k as int) =~= entries@);
    n
}

impl Model {
    /// Apply a shift that was worked out. Where the storage cannot take the new
    /// rows, nothing changes.
    fn apply_shift(
        &mut self,
        objective: &mut Objective,
        shift: Shift,
        plan: &ShiftPlan,
        eager: bool,
    ) -> (done: bool)
        requires
            old(self).wf(),
            old(objective).wf(),
            old(objective).c@.len() == old(self).bounds@.len(),
            shift.column < old(self).bounds@.len(),
            shift.other < old(self).bounds@.len(),
            shift.row < old(self).rows@.len(),
            batch::applicable(
                plan.updates@,
                old(self).rows@.len(),
                old(self).a.column_count(),
            ),
        ensures
            final(self).wf(),
            final(objective).wf(),
            final(objective).c@.len() == final(self).bounds@.len(),
            done == !(old(self).a@.dom().len() + eliminate::entry_total(
                eliminate::new_rows(plan.updates@),
            ) > NONE || old(self).revision + plan.updates@.len() + 2 > usize::MAX),
            final(self).rows@.len() == old(self).rows@.len(),
            !done ==> *final(self) == *old(self) && *final(objective) == *old(objective),
            done ==> shift_applied(
                *old(self),
                *final(self),
                *old(objective),
                *final(objective),
                shift,
                Shifted {
                    cost: plan.cost,
                    constant: plan.constant,
                    rows: eliminate::new_rows(plan.updates@),
                },
            ),
    {
        let ghost start = *self;
        let total: u128 = eliminate::count_entries(&plan.updates);
        proof {
            eliminate::totals_agree(plan.updates@);
            self.a.stored_count_fits();
        }
        assert(plan.updates.len() == plan.updates@.len());
        if total > NONE as u128 || self.a.nnz() as u128 + total > NONE as u128 {
            return false;
        }
        if self.revision as u128 + plan.updates.len() as u128 + 2 > usize::MAX as u128 {
            return false;
        }
        objective.c.set(shift.other, plan.cost);
        objective.constant = plan.constant;
        let touched = self.replace_rows_batch(&plan.updates);
        let ghost middle = self.a@;
        proof {
            self.a.stored_count_fits();
            batch::domains_length(start.rows@, plan.updates@, plan.updates@.len());
        }
        self.clear_row(shift.row);
        self.set_bounds(
            shift.column,
            if shift.lower {
                Bounds { lower: zero(), upper: infinity() }
            } else {
                Bounds { lower: neg_infinity(), upper: zero() }
            },
            eager,
        );
        self.tape.push(
            Rule::BoundShift {
                column: shift.column,
                other: shift.other,
                row: shift.row,
                pivot: shift.pivot,
                slope: shift.slope,
                offset: shift.offset,
            },
        );
        proof {
            assert(batch::updated_matrix(middle, start.a@, plan.updates@));
        }
        true
    }
}

/// A row that a shift can use: linear, with one finite side and two entries.
pub open spec fn shift_row_fits(model: Model, row: int) -> bool {
    &&& model.rows@[row] matches RowDomain::Linear(b) && b.lower.finite() != b.upper.finite()
    &&& linked::line_items(model.a@, false, row).len() == 2
}

/// What a pass over the rows carries from row to row.
pub ghost struct ShiftState {
    pub model: Model,
    pub objective: Objective,
    pub remaining: usize,
}

/// The shifts among the answers of the rows, in their order.
pub open spec fn shifts_found(found: Seq<Option<Shift>>) -> Seq<Shift>
    decreases found.len(),
{
    if found.len() == 0 {
        Seq::empty()
    } else {
        match found.last() {
            Some(shift) => shifts_found(found.drop_last()).push(shift),
            None => shifts_found(found.drop_last()),
        }
    }
}

/// Which entry of the row is tried first: that with the shorter column.
pub open spec fn first_pivot(model: Model, row: int) -> int {
    let entries = listing::line(model.a@, false, row);
    if linked::line_items(model.a@, true, entries[1].0 as int).len() < linked::line_items(
        model.a@,
        true,
        entries[0].0 as int,
    ).len() {
        1
    } else {
        0
    }
}

impl<
    P: Fn(Real, Real) -> Real,
    T: Fn(Real, Real) -> Real,
    D: Fn(Real, Real) -> Real,
    H: Fn(Real, Real) -> Real,
> Arithmetic<P, T, D, H> {
    /// The shift with one pivot, where it is offered, the allowance covers its
    /// cost, and it can be carried out; and what is left of the allowance.
    pub open spec fn shift_tried(
        &self,
        model: Model,
        objective: Objective,
        row: usize,
        index: int,
        options: ShiftOptions,
        remaining: nat,
    ) -> (Option<(Shift, Shifted)>, nat) {
        match self.shift_offered(model, objective, row, index, options) {
            None => (None, remaining),
            Some(shift) => {
                let cost = shift_cost(
                    model,
                    listing::line(model.a@, true, shift.column as int),
                );
                if cost > remaining {
                    (None, remaining)
                } else {
                    (
                        match self.shift_planned(model, objective, shift, options) {
                            Some(plan) => Some((shift, plan)),
                            None => None,
                        },
                        (remaining - cost) as nat,
                    )
                }
            },
        }
    }

    /// The shift that one row gives, the pivot with the shorter column first.
    pub open spec fn row_shift(
        &self,
        model: Model,
        objective: Objective,
        row: usize,
        options: ShiftOptions,
        remaining: nat,
    ) -> (Option<(Shift, Shifted)>, nat) {
        if !shift_row_fits(model, row as int) {
            (None, remaining)
        } else {
            let index = first_pivot(model, row as int);
            let (first, left) = self.shift_tried(
                model,
                objective,
                row,
                index,
                options,
                remaining,
            );
            if first is Some {
                (first, left)
            } else {
                self.shift_tried(model, objective, row, 1 - index, options, left)
            }
        }
    }

    /// One row: the shift that it gives is applied, or nothing changes. The
    /// allowance never grows. Only a deadline, or full storage, stops a shift
    /// that the row gives.
    pub open spec fn shift_step<E: Fn() -> bool>(
        &self,
        before: ShiftState,
        after: ShiftState,
        row: usize,
        found: Option<Shift>,
        options: ShiftOptions,
        expired: E,
    ) -> bool {
        let goal = self.row_shift(
            before.model,
            before.objective,
            row,
            options,
            before.remaining as nat,
        );
        &&& after.remaining <= before.remaining
        &&& found is None ==> after.model == before.model && after.objective == before.objective
        &&& match found {
            Some(shift) => {
                &&& shift.row == row
                &&& call_ensures(expired, (), true) || goal.1 == after.remaining && (goal.0 matches Some(
                    (s, plan),
                ) && s == shift && shift_applied(
                    before.model,
                    after.model,
                    before.objective,
                    after.objective,
                    shift,
                    plan,
                ))
            },
            None => call_ensures(expired, (), true) || match goal.0 {
                None => goal.1 == after.remaining,
                Some((_, plan)) => before.model.a@.dom().len() + eliminate::entry_total(plan.rows)
                    > NONE || before.model.revision + plan.rows.len() + 2 > usize::MAX,
            },
        }
    }

    /// Row `i` of a pass: it costs one of the allowance besides what its shift costs.
    pub open spec fn shift_turn<E: Fn() -> bool>(
        &self,
        states: Seq<ShiftState>,
        found: Seq<Option<Shift>>,
        i: int,
        options: ShiftOptions,
        expired: E,
    ) -> bool {
        &&& states[i].remaining > 0
        &&& self.shift_step(
            (ShiftState {
                model: states[i].model,
                objective: states[i].objective,
                remaining: (states[i].remaining - 1) as usize,
            }),
            states[i + 1],
            i as usize,
            found[i],
            options,
            expired,
        )
    }

    /// A pass: the rows are taken in turn from the first.
    pub open spec fn shift_run<E: Fn() -> bool>(
        &self,
        states: Seq<ShiftState>,
        found: Seq<Option<Shift>>,
        options: ShiftOptions,
        expired: E,
    ) -> bool {
        &&& states.len() == found.len() + 1
        &&& forall|i: int|
            0 <= i < found.len() ==> #[trigger] self.shift_turn(states, found, i, options, expired)
    }

    fn try_pivot<E: Fn() -> bool>(
        &self,
        model: &Model,
        objective: &Objective,
        row: usize,
        entries: &Entries,
        index: usize,
        options: ShiftOptions,
        remaining: usize,
        expired: &E,
    ) -> (r: (Option<(Shift, ShiftPlan)>, usize))
        requires
            self.wf(),
            model.wf(),
            objective.wf(),
            objective.c@.len() == model.bounds@.len(),
            row < model.rows@.len(),
            entries@ == listing::line(model.a@, false, row as int),
            linked::sorted_entries(entries@, model.a.column_count()),
            entries@.len() == 2,
            index < 2,
            call_requires(*expired, ()),
        ensures
            r.1 == self.shift_tried(
                *model,
                *objective,
                row,
                index as int,
                options,
                remaining as nat,
            ).1,
            match r.0 {
                Some((shift, plan)) => {
                    &&& self.shift_tried(
                        *model,
                        *objective,
                        row,
                        index as int,
                        options,
                        remaining as nat,
                    ).0 == Some(
                        (
                            shift,
                            Shifted {
                                cost: plan.cost,
                                constant: plan.constant,
                                rows: eliminate::new_rows(plan.updates@),
                            },
                        ),
                    )
                    &&& shift.column < model.bounds@.len()
                    &&& shift.other < model.bounds@.len()
                    &&& shift.row == row
                    &&& batch::applicable(
                        plan.updates@,
                        model.rows@.len(),
                        model.a.column_count(),
                    )
                },
                None => self.shift_tried(
                    *model,
                    *objective,
                    row,
                    index as int,
                    options,
                    remaining as nat,
                ).0 is None || call_ensures(*expired, (), true),
            },
    {
        match self.offer(model, objective, row, entries, index, options) {
            None => (None, remaining),
            Some(shift) => {
                let cost: u128 = cost_of(model, shift.column);
                if cost > remaining as u128 {
                    return (None, remaining);
                }
                let left: usize = remaining - cost as usize;
                match self.plan_shift(model, objective, shift, options, expired) {
                    Some(plan) => (Some((shift, plan)), left),
                    None => (None, left),
                }
            },
        }
    }

    /// Shift a variable along one row, if that is possible within the allowance.
    /// A deadline, or full storage, may leave everything as it was.
    pub fn bound_shift_row<E: Fn() -> bool>(
        &self,
        model: &mut Model,
        objective: &mut Objective,
        row: usize,
        options: ShiftOptions,
        remaining: usize,
        eager: bool,
        expired: &E,
    ) -> (r: (Option<Shift>, usize))
        requires
            self.wf(),
            old(model).wf(),
            old(objective).wf(),
            old(objective).c@.len() == old(model).bounds@.len(),
            row < old(model).rows@.len(),
            call_requires(*expired, ()),
        ensures
            final(model).wf(),
            final(objective).wf(),
            final(objective).c@.len() == final(model).bounds@.len(),
            final(model).rows@.len() == old(model).rows@.len(),
            self.shift_step(
                (ShiftState { model: *old(model), objective: *old(objective), remaining }),
                (ShiftState { model: *final(model), objective: *final(objective), remaining: r.1 }),
                row,
                r.0,
                options,
                *expired,
            ),
    {
        let ghost (m, o) = (*model, *objective);
        let one_sided = match model.rows[row] {
            RowDomain::Linear(b) => b.lower.is_finite() != b.upper.is_finite(),
            _ => false,
        };
        if !one_sided || model.a.row(row).len() != 2 {
            return (None, remaining);
        }
        let entries = model.row_entries(row);
        proof {
            linked::listed_length(entries@, model.a@, false, row as int);
        }
        let (j, k): (usize, usize) = (entries[0].0, entries[1].0);
        assert(entries@[0].0 < model.a.column_count() && entries@[1].0 < model.a.column_count());
        let index: usize = if model.a.column(k).len() < model.a.column(j).len() {
            1
        } else {
            0
        };
        let (mut found, mut left): (Option<(Shift, ShiftPlan)>, usize) = self.try_pivot(
            model,
            objective,
            row,
            &entries,
            index,
            options,
            remaining,
            expired,
        );
        if found.is_none() {
            let (again, rest): (Option<(Shift, ShiftPlan)>, usize) = self.try_pivot(
                model,
                objective,
                row,
                &entries,
                1 - index,
                options,
                left,
                expired,
            );
            found = again;
            left = rest;
        }
        match found {
            Some((shift, plan)) => {
                if model.apply_shift(objective, shift, &plan, eager) {
                    proof {
                        batch::domains_length(m.rows@, plan.updates@, plan.updates@.len());
                    }
                    (Some(shift), left)
                } else {
                    (None, left)
                }
            },
            None => (None, left),
        }
    }

    /// Shift along the rows in turn until the allowance or the time is used up.
    pub fn bound_shift<E: Fn() -> bool>(
        &self,
        model: &mut Model,
        objective: &mut Objective,
        options: ShiftOptions,
        allowance: usize,
        eager: bool,
        expired: &E,
    ) -> (shifts: Vec<Shift>)
        requires
            self.wf(),
            old(model).wf(),
            old(objective).wf(),
            old(objective).c@.len() == old(model).bounds@.len(),
            call_requires(*expired, ()),
        ensures
            self.bound_shift_done(
                passes::work(*old(model), *old(objective)),
                passes::work(*final(model), *final(objective)),
                options,
                allowance,
                eager,
                *expired,
                shifts,
            ),
    {
        let mut shifts: Vec<Shift> = Vec::new();
        if !options.max_ratio.is_finite() || options.max_ratio.less(one()) {
            return shifts;
        }
        let mut remaining: usize = allowance;
        let mut row: usize = 0;
        let ghost (m, o) = (*model, *objective);
        let ghost mut states: Seq<ShiftState> = seq![
            ShiftState { model: m, objective: o, remaining },
        ];
        let ghost mut found: Seq<Option<Shift>> = Seq::empty();
        while row < model.rows.len() && remaining > 0
            invariant
                row <= model.rows@.len(),
                m == *old(model),
                o == *old(objective),
                options.max_ratio.finite() && !options.max_ratio.lt(one()),
                model.rows@.len() == m.rows@.len(),
                self.wf(),
                model.wf(),
                objective.wf(),
                objective.c@.len() == model.bounds@.len(),
                call_requires(*expired, ()),
                found.len() == row,
                self.shift_run(states, found, options, *expired),
                states[0] == (ShiftState { model: m, objective: o, remaining: allowance }),
                states.last() == (ShiftState { model: *model, objective: *objective, remaining }),
                shifts@ == shifts_found(found),
            decreases m.rows@.len() - row,
        {
            if expired() {
                return shifts;
            }
            let (next, left): (Option<Shift>, usize) = self.bound_shift_row(
                model,
                objective,
                row,
                options,
                remaining - 1,
                eager,
                expired,
            );
            proof {
                let more = found.push(next);
                let later = states.push(
                    ShiftState { model: *model, objective: *objective, remaining: left },
                );
                assert(more.drop_last() =~= found);
                assert forall|i: int| 0 <= i < more.len() implies #[trigger] self.shift_turn(
                    later,
                    more,
                    i,
                    options,
                    *expired,
                ) by {
                    if i < found.len() {
                        assert(self.shift_turn(states, found, i, options, *expired));
                        assert(more[i] == found[i]);
                        assert(later[i] == states[i] && later[i + 1] == states[i + 1]);
                    }
                }
                assert(self.shift_run(later, more, options, *expired));
                found = more;
                states = later;
            }
            remaining = left;
            match next {
                Some(shift) => {
                    shifts.push(shift);
                },
                None => {},
            }
            row = row + 1;
        }
        shifts
    }
}

impl<
    P: Fn(Real, Real) -> Real,
    T: Fn(Real, Real) -> Real,
    D: Fn(Real, Real) -> Real,
    H: Fn(Real, Real) -> Real,
> Arithmetic<P, T, D, H> {
    /// What a pass over the rows of one side and two entries does and reports.
    pub open spec fn bound_shift_done<E: Fn() -> bool>(
        &self,
        before: Work,
        after: Work,
        options: ShiftOptions,
        allowance: usize,
        eager: bool,
        expired: E,
        shifts: Vec<Shift>,
    ) -> bool {
        &&& after.model.wf()
        &&& after.objective.wf()
        &&& after.objective.c@.len() == after.model.bounds@.len()
        &&& !options.max_ratio.finite() || options.max_ratio.lt(one()) ==> shifts@.len() == 0
                && after.model == before.model && after.objective == before.objective
        &&& options.max_ratio.finite() && !options.max_ratio.lt(one()) ==> exists|
                states: Seq<ShiftState>,
                found: Seq<Option<Shift>>,
            |
                {
                    &&& #[trigger] self.shift_run(states, found, options, expired)
                    &&& states[0] == (ShiftState {
                        model: before.model,
                        objective: before.objective,
                        remaining: allowance,
                    })
                    &&& states.last().model == after.model
                    &&& states.last().objective == after.objective
                    &&& shifts@ == shifts_found(found)
                    &&& found.len() == before.model.rows@.len() || states.last().remaining == 0
                        || call_ensures(expired, (), true)
                }
    }
}

} // verus!
