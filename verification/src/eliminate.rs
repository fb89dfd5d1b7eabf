//! Eliminating a variable through an equation.

use crate::arithmetic::Arithmetic;
use crate::assembly;
use crate::batch::{self, RowUpdate};
use crate::bounds::{Bounds, RowDomain};
use crate::linked::{self, Entries, NONE};
use crate::listing;
use crate::merge;
use crate::model::{self, Model};
use crate::number::{infinity, neg_infinity, zero, Real};
use crate::objective::{self, Affected, Failure, Objective, Plan};
use crate::rewrite;
use crate::substitution::{self, Outline};
use crate::tape::{Equation, Rule};
use crate::tape;
use vstd::prelude::*;

verus! {

/// The bit pattern of one ten-billionth: the least share of its terms that a
/// sum may keep.
pub const REMAINDER: u64 = 0x3ddb7cdfd9d7bdbb;

/// A new row: its number, its entries and its domain.
pub type NewRow = (usize, Seq<(usize, Real)>, RowDomain);

/// What updates say.
pub open spec fn new_rows(updates: Seq<RowUpdate>) -> Seq<NewRow> {
    Seq::new(updates.len(), |u: int| (updates[u].0, updates[u].1@, updates[u].2))
}

impl<
    P: Fn(Real, Real) -> Real,
    T: Fn(Real, Real) -> Real,
    D: Fn(Real, Real) -> Real,
    H: Fn(Real, Real) -> Real,
> Arithmetic<P, T, D, H> {
    /// A side moved by a shift. An infinite side stays; a finite one must stay
    /// finite.
    pub open spec fn side_shifted(&self, value: Real, shift: Real) -> Option<Real> {
        if !value.finite() {
            Some(value)
        } else if self.difference(value, shift).finite() {
            Some(self.difference(value, shift))
        } else {
            None
        }
    }

    /// A domain with a finite shift moved into its sides.
    pub open spec fn domain_shifted(&self, domain: RowDomain, shift: Real) -> Option<RowDomain> {
        if !shift.finite() {
            None
        } else {
            match domain {
                RowDomain::Linear(b) => match (
                    self.side_shifted(b.lower, shift),
                    self.side_shifted(b.upper, shift),
                ) {
                    (Some(lower), Some(upper)) => Some(RowDomain::Linear(Bounds { lower, upper })),
                    _ => None,
                },
                RowDomain::Cone { rhs, block } => match self.side_shifted(rhs, shift) {
                    Some(rhs) => Some(RowDomain::Cone { rhs, block }),
                    None => None,
                },
                RowDomain::Deleted => None,
            }
        }
    }

    fn shift_side(&self, value: Real, shift: Real) -> (r: Option<Real>)
        requires
            self.wf(),
        ensures
            r == self.side_shifted(value, shift),
    {
        if !value.is_finite() {
            return Some(value);
        }
        let moved = self.difference_of(value, shift);
        if moved.is_finite() {
            Some(moved)
        } else {
            None
        }
    }

    pub fn shifted(&self, domain: RowDomain, shift: Real) -> (r: Option<RowDomain>)
        requires
            self.wf(),
        ensures
            r == self.domain_shifted(domain, shift),
    {
        if !shift.is_finite() {
            return None;
        }
        match domain {
            RowDomain::Linear(b) => {
                let lower = self.shift_side(b.lower, shift);
                let upper = self.shift_side(b.upper, shift);
                match (lower, upper) {
                    (Some(lower), Some(upper)) => Some(RowDomain::Linear(Bounds { lower, upper })),
                    _ => None,
                }
            },
            RowDomain::Cone { rhs, block } => match self.shift_side(rhs, shift) {
                Some(rhs) => Some(RowDomain::Cone { rhs, block }),
                None => None,
            },
            RowDomain::Deleted => None,
        }
    }

    /// A sum of two terms that lost nearly all of them, though not all.
    pub open spec fn wiped(&self, value: Real, a: Real, b: Real, share: Real) -> bool {
        !value.finite() || (!value.zero() && value.absolute().lt(
            self.product(share, a.absolute().larger(b.absolute())),
        ))
    }

    pub(crate) fn wipes(&self, value: Real, a: Real, b: Real, share: Real) -> (r: bool)
        requires
            self.wf(),
        ensures
            r == self.wiped(value, a, b, share),
    {
        !value.is_finite() || (!value.is_zero() && value.abs().less(
            self.product_of(share, a.abs().max(b.abs())),
        ))
    }

    /// The row that results from adding a multiple of the slopes, and the fill
    /// so far. Entries that cancel exactly leave the row.
    pub open spec fn row_merged(
        &self,
        list: Seq<Affected>,
        a: Real,
        fill: nat,
        max_fill: nat,
    ) -> Result<(Seq<(usize, Real)>, nat), Failure>
        decreases list.len(),
    {
        if list.len() == 0 {
            Ok((Seq::empty(), fill))
        } else {
            match self.row_merged(list.drop_last(), a, fill, max_fill) {
                Err(e) => Err(e),
                Ok((entries, filled)) => {
                    let x = list.last();
                    let change = self.product(a, x.slope);
                    let value = self.sum(x.curvature, change);
                    if !x.sloped {
                        Ok((entries.push((x.column, x.curvature)), filled))
                    } else if self.wiped(value, x.curvature, change, Real { bits: REMAINDER }) {
                        Err(Failure::Numerical)
                    } else if value.zero() {
                        Ok((entries, filled))
                    } else if !x.curvature.zero() {
                        Ok((entries.push((x.column, value)), filled))
                    } else if filled + 1 > max_fill {
                        Err(Failure::ConstraintFill)
                    } else {
                        Ok((entries.push((x.column, value)), filled + 1))
                    }
                },
            }
        }
    }

    proof fn row_refusal_stays(
        &self,
        list: Seq<Affected>,
        a: Real,
        fill: nat,
        max_fill: nat,
        n: int,
    )
        requires
            0 <= n <= list.len(),
            self.row_merged(list.take(n), a, fill, max_fill) is Err,
        ensures
            self.row_merged(list, a, fill, max_fill) == self.row_merged(
                list.take(n),
                a,
                fill,
                max_fill,
            ),
        decreases list.len(),
    {
        if n < list.len() {
            assert(list.drop_last().take(n) =~= list.take(n));
            self.row_refusal_stays(list.drop_last(), a, fill, max_fill, n);
        } else {
            assert(list.take(n) =~= list);
        }
    }

    fn merge_row(&self, list: &Vec<Affected>, a: Real, fill: usize, max_fill: usize, Ghost(limit): Ghost<nat>, Ghost(column): Ghost<usize>) -> (r:
        Result<(Entries, usize), Failure>)
        requires
            self.wf(),
            fill <= max_fill,
            forall|k: int| 0 <= k < list@.len() ==> (#[trigger] list@[k]).column < limit && list@[k].column != column,
            forall|k: int|
                0 <= k < list@.len() && !(#[trigger] list@[k]).sloped ==> !list@[k].curvature.zero(),
            forall|i: int, j: int|
                0 <= i < j < list@.len() ==> (#[trigger] list@[i]).column < (
                #[trigger] list@[j]).column,
        ensures
            match r {
                Ok((entries, filled)) => {
                    &&& self.row_merged(list@, a, fill as nat, max_fill as nat) == Ok::<
                        (Seq<(usize, Real)>, nat),
                        Failure,
                    >((entries@, filled as nat))
                    &&& filled <= max_fill
                    &&& linked::sorted_entries(entries@, limit)
                    &&& forall|k: int| 0 <= k < entries@.len() ==> (#[trigger] entries@[k]).0 != column
                },
                Err(e) => (e == Failure::Numerical || e == Failure::ConstraintFill)
                    && self.row_merged(list@, a, fill as nat, max_fill as nat) == Err::<
                    (Seq<(usize, Real)>, nat),
                    Failure,
                >(e),
            },
    {
        let mut entries: Entries = Vec::new();
        let mut filled: usize = fill;
        let mut k: usize = 0;
        assert(list@.take(0) =~= Seq::<Affected>::empty());
        assert(entries@ =~= Seq::<(usize, Real)>::empty());
        while k < list.len()
            invariant
                k <= list@.len(),
                self.wf(),
                fill <= max_fill,
                filled <= max_fill,
                forall|k: int| 0 <= k < list@.len() ==> (#[trigger] list@[k]).column < limit && list@[k].column != column,
                forall|k: int|
                    0 <= k < list@.len() && !(#[trigger] list@[k]).sloped
                        ==> !list@[k].curvature.zero(),
                forall|i: int, j: int|
                    0 <= i < j < list@.len() ==> (#[trigger] list@[i]).column < (
                    #[trigger] list@[j]).column,
                self.row_merged(list@.take(k as int), a, fill as nat, max_fill as nat) == Ok::<
                    (Seq<(usize, Real)>, nat),
                    Failure,
                >((entries@, filled as nat)),
                linked::sorted_entries(entries@, limit),
                forall|e: int|
                    0 <= e < entries@.len() ==> (#[trigger] entries@[e]).0 != column && (k
                        < list@.len() ==> entries@[e].0 < list@[k as int].column),
            decreases list@.len() - k,
        {
            let x = list[k];
            let ghost before = entries@;
            assert(list@[k as int].column < limit);
            proof {
                assert(list@.take(k + 1).drop_last() =~= list@.take(k as int));
                assert(list@.take(k + 1).last() == x);
                if k + 1 < list@.len() {
                    assert(list@[k as int].column < list@[k + 1].column);
                }
            }
            if !x.sloped {
                entries.push((x.column, x.curvature));
            } else {
                let change = self.product_of(a, x.slope);
                let value = self.sum_of(x.curvature, change);
                if self.wipes(value, x.curvature, change, Real { bits: REMAINDER }) {
                    proof {
                        self.row_refusal_stays(list@, a, fill as nat, max_fill as nat, k + 1);
                    }
                    return Err(Failure::Numerical);
                }
                if !value.is_zero() {
                    if x.curvature.is_zero() {
                        if filled >= max_fill {
                            proof {
                                self.row_refusal_stays(
                                    list@,
                                    a,
                                    fill as nat,
                                    max_fill as nat,
                                    k + 1,
                                );
                            }
                            return Err(Failure::ConstraintFill);
                        }
                        filled = filled + 1;
                    }
                    entries.push((x.column, value));
                }
            }
            proof {
                assert forall|i: int, j: int| 0 <= i < j < entries@.len() implies (
                #[trigger] entries@[i]).0 < (#[trigger] entries@[j]).0 by {
                    if j == before.len() {
                        assert(before[i].0 < x.column);
                    } else {
                        assert(before[i].0 < before[j].0);
                    }
                }
                assert forall|e: int| 0 <= e < entries@.len() implies (
                #[trigger] entries@[e]).0 < limit && !entries@[e].1.zero() by {
                    if e < before.len() {
                        assert(entries@[e] == before[e]);
                    }
                }
            }
            k = k + 1;
        }
        assert(list@.take(k as int) =~= list@);
        Ok((entries, filled))
    }

    /// The new rows of the first of the other rows of a column. The work stops
    /// at the first refusal.
    pub open spec fn rows_planned(
        &self,
        model: Model,
        other_rows: Seq<(usize, Real)>,
        column: usize,
        offset: Real,
        slopes: Seq<(usize, Real)>,
        max_fill: nat,
    ) -> Result<(Seq<NewRow>, nat), Failure>
        decreases other_rows.len(),
    {
        if other_rows.len() == 0 {
            Ok((Seq::empty(), 0))
        } else {
            match self.rows_planned(
                model,
                other_rows.drop_last(),
                column,
                offset,
                slopes,
                max_fill,
            ) {
                Err(e) => Err(e),
                Ok((rows, fill)) => {
                    let (i, a) = other_rows.last();
                    let own = objective::others(listing::line(model.a@, false, i as int), column);
                    match self.domain_shifted(model.rows@[i as int], self.product(a, offset)) {
                        None => Err(Failure::Numerical),
                        Some(domain) => match self.row_merged(
                            objective::affected(own, slopes),
                            a,
                            fill,
                            max_fill,
                        ) {
                            Err(e) => Err(e),
                            Ok((entries, filled)) => Ok((rows.push((i, entries, domain)), filled)),
                        },
                    }
                },
            }
        }
    }

    proof fn rows_refusal_stays(
        &self,
        model: Model,
        list: Seq<(usize, Real)>,
        column: usize,
        offset: Real,
        slopes: Seq<(usize, Real)>,
        max_fill: nat,
        n: int,
    )
        requires
            0 <= n <= list.len(),
            self.rows_planned(model, list.take(n), column, offset, slopes, max_fill) is Err,
        ensures
            self.rows_planned(model, list, column, offset, slopes, max_fill)
                == self.rows_planned(model, list.take(n), column, offset, slopes, max_fill),
        decreases list.len(),
    {
        if n < list.len() {
            assert(list.drop_last().take(n) =~= list.take(n));
            self.rows_refusal_stays(
                model,
                list.drop_last(),
                column,
                offset,
                slopes,
                max_fill,
                n,
            );
        } else {
            assert(list.take(n) =~= list);
        }
    }

    /// Work out the new rows of a substitution. A deadline may end the work.
    fn plan_rows<E: Fn() -> bool>(
        &self,
        model: &Model,
        other_rows: &Entries,
        column: usize,
        offset: Real,
        slopes: &Entries,
        max_fill: usize,
        expired: &E,
    ) -> (r: Result<(Vec<RowUpdate>, usize), Failure>)
        requires
            self.wf(),
            model.wf(),
            call_requires(*expired, ()),
            merge::increasing(other_rows@),
            merge::increasing(slopes@),
            forall|k: int|
                0 <= k < other_rows@.len() ==> (#[trigger] other_rows@[k]).0 < model.rows@.len(),
            forall|k: int|
                0 <= k < slopes@.len() ==> (#[trigger] slopes@[k]).0 < model.a.column_count()
                    && slopes@[k].0 != column,
        ensures
            match r {
                Ok((updates, fill)) => {
                    &&& self.rows_planned(
                        *model,
                        other_rows@,
                        column,
                        offset,
                        slopes@,
                        max_fill as nat,
                    ) == Ok::<(Seq<NewRow>, nat), Failure>((new_rows(updates@), fill as nat))
                    &&& fill <= max_fill
                    &&& updates@.len() == other_rows@.len()
                    &&& updates_fit(updates@, other_rows@, *model, column)
                },
                Err(Failure::Deadline) => call_ensures(*expired, (), true),
                Err(e) => self.rows_planned(
                    *model,
                    other_rows@,
                    column,
                    offset,
                    slopes@,
                    max_fill as nat,
                ) == Err::<(Seq<NewRow>, nat), Failure>(e),
            },
    {
        let mut updates: Vec<RowUpdate> = Vec::new();
        let mut fill: usize = 0;
        let mut u: usize = 0;
        assert(other_rows@.take(0) =~= Seq::<(usize, Real)>::empty());
        assert(new_rows(updates@) =~= Seq::<NewRow>::empty());
        while u < other_rows.len()
            invariant
                u <= other_rows@.len(),
                self.wf(),
                model.wf(),
                call_requires(*expired, ()),
                merge::increasing(other_rows@),
                merge::increasing(slopes@),
                forall|k: int|
                    0 <= k < other_rows@.len() ==> (#[trigger] other_rows@[k]).0
                        < model.rows@.len(),
                forall|k: int|
                    0 <= k < slopes@.len() ==> (#[trigger] slopes@[k]).0 < model.a.column_count()
                        && slopes@[k].0 != column,
                fill <= max_fill,
                updates@.len() == u,
                updates_fit(updates@, other_rows@, *model, column),
                self.rows_planned(
                    *model,
                    other_rows@.take(u as int),
                    column,
                    offset,
                    slopes@,
                    max_fill as nat,
                ) == Ok::<(Seq<NewRow>, nat), Failure>((new_rows(updates@), fill as nat)),
            decreases other_rows@.len() - u,
        {
            if expired() {
                return Err(Failure::Deadline);
            }
            let (i, a): (usize, Real) = other_rows[u];
            assert(other_rows@[u as int].0 < model.rows@.len());
            proof {
                assert(other_rows@.take(u + 1).drop_last() =~= other_rows@.take(u as int));
                assert(other_rows@.take(u + 1).last() == (i, a));
            }
            let domain = match self.shifted(model.rows[i], self.product_of(a, offset)) {
                Some(domain) => domain,
                None => {
                    proof {
                        self.rows_refusal_stays(
                            *model,
                            other_rows@,
                            column,
                            offset,
                            slopes@,
                            max_fill as nat,
                            u + 1,
                        );
                    }
                    return Err(Failure::Numerical);
                },
            };
            let row = model.row_entries(i);
            let own = objective::without(&row, column);
            proof {
                objective::others_increase(row@, column);
            }
            let list = objective::support(&own, slopes);
            proof {
                assert forall|k: int| 0 <= k < list@.len() implies (#[trigger] list@[k]).column
                    < model.a.column_count() && list@[k].column != column by {
                    if exists|b: int| 0 <= b < own@.len() && (#[trigger] own@[b]).0 == list@[k].column {
                        let b = choose|b: int|
                            0 <= b < own@.len() && (#[trigger] own@[b]).0 == list@[k].column;
                        objective::others_are_listed(row@, column, b);
                        let e = choose|e: int| 0 <= e < row@.len() && row@[e] == own@[b];
                        assert(row@[e].0 < model.a.column_count());
                    } else {
                        let b = choose|b: int|
                            0 <= b < slopes@.len() && (#[trigger] slopes@[b]).0 == list@[k].column;
                        assert(slopes@[b].0 < model.a.column_count());
                    }
                }
                assert forall|k: int| 0 <= k < list@.len() && !(#[trigger] list@[k]).sloped implies !list@[k].curvature.zero() by {
                    objective::unsloped_is_original(own@, slopes@, k);
                    let b = choose|b: int|
                        0 <= b < own@.len() && own@[b] == (list@[k].column, list@[k].curvature);
                    objective::others_are_listed(row@, column, b);
                    let e = choose|e: int| 0 <= e < row@.len() && row@[e] == own@[b];
                    assert(!row@[e].1.zero());
                }
            }
            let (entries, filled): (Entries, usize) = match self.merge_row(
                &list,
                a,
                fill,
                max_fill,
                Ghost(model.a.column_count()),
                Ghost(column),
            ) {
                Ok(r) => r,
                Err(e) => {
                    proof {
                        self.rows_refusal_stays(
                            *model,
                            other_rows@,
                            column,
                            offset,
                            slopes@,
                            max_fill as nat,
                            u + 1,
                        );
                    }
                    return Err(e);
                },
            };
            let ghost before = updates@;
            updates.push((i, entries, domain));
            fill = filled;
            u = u + 1;
            proof {
                assert(new_rows(updates@) =~= new_rows(before).push((i, entries@, domain)));
            }
        }
        assert(other_rows@.take(u as int) =~= other_rows@);
        Ok((updates, fill))
    }
}

/// The updates are for the listed rows in turn, and none mentions the column.
pub open spec fn updates_fit(
    updates: Seq<RowUpdate>,
    other_rows: Seq<(usize, Real)>,
    model: Model,
    column: usize,
) -> bool {
    &&& updates.len() <= other_rows.len()
    &&& forall|u: int|
        0 <= u < updates.len() ==> {
            &&& (#[trigger] updates[u]).0 == other_rows[u].0
            &&& linked::sorted_entries(updates[u].1@, model.a.column_count())
            &&& !(updates[u].2 is Deleted)
            &&& updates[u].2 matches RowDomain::Cone { block, .. } ==> block < usize::MAX
            &&& forall|k: int|
                0 <= k < updates[u].1@.len() ==> (#[trigger] updates[u].1@[k]).0 != column
        }
}

impl<
    P: Fn(Real, Real) -> Real,
    T: Fn(Real, Real) -> Real,
    D: Fn(Real, Real) -> Real,
    H: Fn(Real, Real) -> Real,
> Arithmetic<P, T, D, H> {
    /// The slopes of a variable in an equation: minus each other coefficient
    /// over the pivot.
    pub open spec fn equation_slopes(
        &self,
        entries: Seq<(usize, Real)>,
        column: usize,
        pivot: Real,
    ) -> Seq<(usize, Real)> {
        let rest = objective::others(entries, column);
        Seq::new(rest.len(), |k: int| (rest[k].0, self.quotient(rest[k].1.opposite(), pivot)))
    }

    pub(crate) fn slopes_of(&self, rest: &Entries, pivot: Real) -> (out: Entries)
        requires
            self.wf(),
        ensures
            out@.len() == rest@.len(),
            forall|k: int|
                0 <= k < out@.len() ==> #[trigger] out@[k] == (
                    rest@[k].0,
                    self.quotient(rest@[k].1.opposite(), pivot),
                ),
    {
        let mut out: Entries = Vec::new();
        let mut k: usize = 0;
        while k < rest.len()
            invariant
                k <= rest@.len(),
                self.wf(),
                out@.len() == k,
                forall|i: int|
                    0 <= i < k ==> #[trigger] out@[i] == (
                        rest@[i].0,
                        self.quotient(rest@[i].1.opposite(), pivot),
                    ),
            decreases rest@.len() - k,
        {
            out.push((rest[k].0, self.quotient_of(rest[k].1.neg(), pivot)));
            k = k + 1;
        }
        out
    }

    /// What remains of the equation as a row on the other variables: the bounds
    /// of the variable, or nothing where it has none.
    pub open spec fn retained_domain(&self, equation: Bounds, effective: Bounds, pivot: Real) -> Option<
        RowDomain,
    > {
        let (l, u) = if zero().lt(pivot) {
            (effective.upper, effective.lower)
        } else {
            (effective.lower, effective.upper)
        };
        let lower = self.difference(equation.lower, self.product(pivot, l));
        let upper = self.difference(equation.upper, self.product(pivot, u));
        if unbounded(effective) {
            Some(RowDomain::Deleted)
        } else if (l.finite() && !lower.finite()) || (u.finite() && !upper.finite()) {
            None
        } else {
            Some(RowDomain::Linear(Bounds { lower, upper }))
        }
    }

    fn retain(&self, equation: Bounds, effective: Bounds, pivot: Real) -> (r: Option<RowDomain>)
        requires
            self.wf(),
        ensures
            r == self.retained_domain(equation, effective, pivot),
    {
        if effective.lower.equals(neg_infinity()) && effective.upper.equals(infinity()) {
            return Some(RowDomain::Deleted);
        }
        let (l, u): (Real, Real) = if zero().less(pivot) {
            (effective.upper, effective.lower)
        } else {
            (effective.lower, effective.upper)
        };
        let lower = self.difference_of(equation.lower, self.product_of(pivot, l));
        let upper = self.difference_of(equation.upper, self.product_of(pivot, u));
        if (l.is_finite() && !lower.is_finite()) || (u.is_finite() && !upper.is_finite()) {
            None
        } else {
            Some(RowDomain::Linear(Bounds { lower, upper }))
        }
    }

    /// Everything that eliminating a variable through an equation changes, or
    /// why it is refused: the new rows, that of the equation last, and the new
    /// objective.
    pub open spec fn elimination(
        &self,
        model: Model,
        objective: Objective,
        column: usize,
        equation: Equation,
        effective: Bounds,
        max_fill: nat,
        allow_growth: bool,
    ) -> Result<(Seq<NewRow>, Outline), Failure> {
        let row = equation.row;
        let pivot = linked::value_at(model.a@, row as int, column as int);
        let offset = self.quotient(equation.bounds.lower, pivot);
        let slopes = self.equation_slopes(equation.entries@, column, pivot);
        let other_rows = objective::others(listing::line(model.a@, true, column as int), row);
        if pivot.zero() || !offset.finite() || !objective::all_finite(slopes) {
            Err(Failure::Numerical)
        } else {
            match self.retained_domain(equation.bounds, effective, pivot) {
                None => Err(Failure::Numerical),
                Some(domain) => match self.rows_planned(
                    model,
                    other_rows,
                    column,
                    offset,
                    slopes,
                    max_fill,
                ) {
                    Err(e) => Err(e),
                    Ok((rows, fill)) => match self.planned(
                        objective,
                        listing::line(objective.p@, false, column as int),
                        column,
                        offset,
                        slopes,
                        (max_fill - fill) as nat,
                        allow_growth,
                    ) {
                        Err(e) => Err(e),
                        Ok(outline) => Ok(
                            (
                                rows.push(
                                    (
                                        row,
                                        if domain is Deleted {
                                            Seq::empty()
                                        } else {
                                            objective::others(equation.entries@, column)
                                        },
                                        domain,
                                    ),
                                ),
                                outline,
                            ),
                        ),
                    },
                },
            }
        }
    }

    /// Work out the elimination of a variable. Nothing changes.
    pub fn plan_elimination<E: Fn() -> bool>(
        &self,
        model: &Model,
        objective: &Objective,
        column: usize,
        equation: &Equation,
        effective: Bounds,
        max_fill: usize,
        allow_growth: bool,
        expired: &E,
    ) -> (r: Result<(Vec<RowUpdate>, Entries, Entries, Plan), Failure>)
        requires
            self.wf(),
            model.wf(),
            objective.wf(),
            objective.c@.len() == model.bounds@.len(),
            call_requires(*expired, ()),
            column < model.bounds@.len(),
            equation.row < model.rows@.len(),
            linked::lists_line(equation.entries@, model.a@, false, equation.row as int),
        ensures
            match r {
                Ok((updates, other_rows, slopes, plan)) => {
                    &&& self.elimination(
                        *model,
                        *objective,
                        column,
                        *equation,
                        effective,
                        max_fill as nat,
                        allow_growth,
                    ) == Ok::<(Seq<NewRow>, Outline), Failure>(
                        (
                            new_rows(updates@),
                            Outline {
                                constant: plan.constant,
                                linear: plan.linear@,
                                quadratic: plan.quadratic@,
                            },
                        ),
                    )
                    &&& batch::applicable(
                        updates@,
                        model.rows@.len(),
                        model.a.column_count(),
                    )
                    &&& updates@.len() == other_rows@.len() + 1
                    &&& other_rows@ == objective::others(
                        listing::line(model.a@, true, column as int),
                        equation.row,
                    )
                    &&& slopes@ == self.equation_slopes(
                        equation.entries@,
                        column,
                        linked::value_at(model.a@, equation.row as int, column as int),
                    )
                    &&& avoids(updates@, column)
                    &&& covers(updates@, model.a@, column)
                    &&& plan.gradient.constant == objective.c@[column as int]
                    &&& plan.gradient.terms@ == listing::line(
                        objective.p@,
                        false,
                        column as int,
                    )
                    &&& model::in_range(plan.gradient.terms@, model.a.column_count())
                    &&& model::in_range(slopes@, model.a.column_count())
                    &&& model::in_range(other_rows@, model.rows@.len())
                    &&& model::in_range(plan.linear@, objective.c@.len())
                    &&& substitution::updates_fit(plan.quadratic@, objective.c@.len())
                },
                Err(Failure::Deadline) => call_ensures(*expired, (), true),
                Err(e) => self.elimination(
                    *model,
                    *objective,
                    column,
                    *equation,
                    effective,
                    max_fill as nat,
                    allow_growth,
                ) == Err::<(Seq<NewRow>, Outline), Failure>(e),
            },
    {
        let row: usize = equation.row;
        let pivot = model.a.get(row, column);
        if pivot.is_zero() {
            return Err(Failure::Numerical);
        }
        let offset = self.quotient_of(equation.bounds.lower, pivot);
        let remaining = objective::without(&equation.entries, column);
        let slopes = self.slopes_of(&remaining, pivot);
        proof {
            assert(slopes@ =~= self.equation_slopes(equation.entries@, column, pivot));
            model.a.stored_positions();
            objective::others_increase(equation.entries@, column);
            assert forall|k: int| 0 <= k < remaining@.len() implies (
            #[trigger] remaining@[k]).0 < model.a.column_count() && remaining@[k].0 != column
                && !remaining@[k].1.zero() by {
                objective::others_are_listed(equation.entries@, column, k);
                let e = choose|e: int|
                    0 <= e < equation.entries@.len() && equation.entries@[e] == remaining@[k];
                assert(model.a@.contains_key(
                    linked::place(false, row as int, equation.entries@[e].0 as int),
                ));
                assert(model.a@.contains_key((row as int, equation.entries@[e].0 as int)));
            }
            assert forall|i: int, j: int| 0 <= i < j < slopes@.len() implies (
            #[trigger] slopes@[i]).0 < (#[trigger] slopes@[j]).0 by {
                assert(remaining@[i].0 < remaining@[j].0);
            }
            assert forall|k: int| 0 <= k < slopes@.len() implies (#[trigger] slopes@[k]).0
                < model.a.column_count() && slopes@[k].0 != column by {
                assert(remaining@[k].0 < model.a.column_count());
            }
        }
        if !offset.is_finite() || !substitution::finite_values(&slopes) {
            return Err(Failure::Numerical);
        }
        let domain = match self.retain(equation.bounds, effective, pivot) {
            Some(domain) => domain,
            None => {
                return Err(Failure::Numerical);
            },
        };
        let incident = model.column_entries(column);
        let other_rows = objective::without(&incident, row);
        proof {
            objective::others_increase(incident@, row);
            assert forall|k: int| 0 <= k < other_rows@.len() implies (
            #[trigger] other_rows@[k]).0 < model.rows@.len() && other_rows@[k].0 != row by {
                objective::others_are_listed(incident@, row, k);
                let e = choose|e: int| 0 <= e < incident@.len() && incident@[e] == other_rows@[k];
                assert(incident@[e].0 < model.rows@.len());
            }
        }
        let (mut updates, fill): (Vec<RowUpdate>, usize) = match self.plan_rows(
            model,
            &other_rows,
            column,
            offset,
            &slopes,
            max_fill,
            expired,
        ) {
            Ok(r) => r,
            Err(e) => {
                return Err(e);
            },
        };
        let plan = match self.plan_substitution(
            objective,
            column,
            offset,
            &slopes,
            max_fill - fill,
            allow_growth,
            expired,
        ) {
            Ok(plan) => plan,
            Err(e) => {
                proof {
                    if e != Failure::Deadline {
                        let terms = choose|terms: Seq<(usize, Real)>|
                            linked::lists_line(terms, objective.p@, false, column as int)
                                && #[trigger] self.planned(
                                *objective,
                                terms,
                                column,
                                offset,
                                slopes@,
                                (max_fill - fill) as nat,
                                allow_growth,
                            ) == Err::<Outline, Failure>(e);
                        listing::line_is(terms, objective.p@, false, column as int);
                    }
                }
                return Err(e);
            },
        };
        let ghost rows = updates@;
        let entries: Entries = match domain {
            RowDomain::Deleted => Vec::new(),
            _ => remaining,
        };
        proof {
            if domain is Deleted {
                assert(entries@ =~= Seq::<(usize, Real)>::empty());
            }
        }
        updates.push((row, entries, domain));
        proof {
            listing::line_is(plan.gradient.terms@, objective.p@, false, column as int);
            assert(new_rows(updates@) =~= new_rows(rows).push((row, entries@, domain)));
            objective.p.stored_positions();
            assert forall|u: int, v: int| 0 <= u < v < updates@.len() implies (
            #[trigger] updates@[u]).0 != (#[trigger] updates@[v]).0 by {
                if v < rows.len() {
                    assert(rows[u].0 == other_rows@[u].0 && rows[v].0 == other_rows@[v].0);
                    assert(other_rows@[u].0 < other_rows@[v].0);
                } else {
                    assert(rows[u].0 == other_rows@[u].0);
                }
            }
            assert forall|u: int| 0 <= u < updates@.len() implies {
                &&& (#[trigger] updates@[u]).0 < model.rows@.len()
                &&& linked::sorted_entries(updates@[u].1@, model.a.column_count())
                &&& updates@[u].2 is Deleted ==> updates@[u].1@.len() == 0
                &&& updates@[u].2 matches RowDomain::Cone { block, .. } ==> block < usize::MAX
            } by {
                if u < rows.len() {
                    assert(updates@[u] == rows[u]);
                    assert(rows[u].0 == other_rows@[u].0);
                }
            }
            assert forall|u: int, k: int|
                0 <= u < updates@.len() && 0 <= k < updates@[u].1@.len() implies (
            #[trigger] updates@[u].1@[k]).0 != column by {
                if u < rows.len() {
                    assert(updates@[u] == rows[u]);
                    assert(rows[u].1@[k].0 != column);
                } else if !(domain is Deleted) {
                    assert(remaining@[k].0 != column);
                }
            }
            assert forall|i: int| #[trigger] model.a@.contains_key((i, column as int)) implies batch::names_row(
                updates@,
                updates@.len() as int,
                i,
            ) by {
                assert(model.a@.contains_key(linked::place(true, column as int, i)));
                let e = choose|e: int| 0 <= e < incident@.len() && (#[trigger] incident@[e]).0 == i;
                if i == row {
                    assert(updates@[rows.len() as int].0 == i);
                } else {
                    objective::others_keep(incident@, row, e);
                    let k = choose|k: int| 0 <= k < other_rows@.len() && other_rows@[k] == incident@[e];
                    assert(updates@[k] == rows[k]);
                    assert(updates@[k].0 == i);
                }
            }
            assert forall|k: int| 0 <= k < plan.gradient.terms@.len() implies (
            #[trigger] plan.gradient.terms@[k]).0 < model.a.column_count() by {
                assert(objective.p@.contains_key(
                    linked::place(false, column as int, plan.gradient.terms@[k].0 as int),
                ));
                assert(objective.p@.contains_key(
                    (column as int, plan.gradient.terms@[k].0 as int),
                ));
            }
        }
        Ok((updates, other_rows, slopes, plan))
    }
}

/// No side restricts the variable.
pub open spec fn unbounded(b: Bounds) -> bool {
    b.lower.same(neg_infinity()) && b.upper.same(infinity())
}

/// No new row mentions a column.
pub open spec fn avoids(updates: Seq<RowUpdate>, column: usize) -> bool {
    forall|u: int, k: int|
        0 <= u < updates.len() && 0 <= k < updates[u].1@.len() ==> (
        #[trigger] updates[u].1@[k]).0 != column
}

/// Every row with an entry in a column is replaced.
pub open spec fn covers(
    updates: Seq<RowUpdate>,
    a: Map<(int, int), Real>,
    column: usize,
) -> bool {
    forall|i: int| #[trigger]
        a.contains_key((i, column as int)) ==> batch::names_row(updates, updates.len() as int, i)
}

/// The variable is marked as gone, and the columns that the objective and the
/// equation couple with it are scheduled.
pub open spec fn staged(
    before: Model,
    after: Model,
    column: usize,
    terms: Seq<(usize, Real)>,
    slopes: Seq<(usize, Real)>,
) -> bool {
    &&& after.same_problem(&Model { alive: after.alive, ..before })
    &&& after.alive@ == before.alive@.update(column as int, false)
    &&& after.tape@ == before.tape@
    &&& after.revision == before.revision
    &&& after.queues@ == model::columns_noted(
        model::columns_noted(before.queues@, terms, before.alive@, before.a@),
        slopes,
        before.alive@,
        before.a@,
    )
}

/// A model after an elimination.
pub open spec fn eliminated(
    before: Model,
    after: Model,
    column: usize,
    equation: Equation,
    rows: Seq<NewRow>,
    terms: Seq<(usize, Real)>,
    slopes: Seq<(usize, Real)>,
) -> bool {
    exists|updates: Seq<RowUpdate>, first: Model, second: Model|
        {
            &&& new_rows(updates) == rows
            &&& staged(before, first, column, terms, slopes)
            &&& #[trigger] rewrite::rewritten(first, second, updates, updates.len())
            &&& after.same_problem(&second)
            &&& after.queues@ == second.queues@
            &&& after.revision == second.revision + 1
            &&& batch::updated_matrix(after.a@, before.a@, updates)
            &&& after.rows@ == batch::updated_domains(before.rows@, updates, updates.len())
        }
}

/// The record of an elimination.
pub open spec fn records_elimination(
    rule: Rule,
    model: Model,
    objective: Objective,
    column: usize,
    equation: Equation,
    effective: Bounds,
) -> bool {
    rule matches Rule::Substituted { column: c, equation: e, gradient, other_rows, retained } && {
        &&& c == column
        &&& e == equation
        &&& retained == !unbounded(effective)
        &&& other_rows@ == objective::others(
            listing::line(model.a@, true, column as int),
            equation.row,
        )
        &&& gradient.constant == objective.c@[column as int]
        &&& gradient.terms@ == listing::line(objective.p@, false, column as int)
    }
}

/// The storage cannot take the new rows.
pub open spec fn overfull(model: Model, objective: Objective, rows: Seq<NewRow>, outline: Outline) -> bool {
    ||| model.a@.dom().len() + entry_total(rows) > NONE
    ||| model.revision + rows.len() + 1 > usize::MAX
    ||| objective.p@.dom().len() + 2 * outline.quadratic.len() + 2 >= 2 * NONE
    ||| objective.p@.dom().len() + 2 * outline.quadratic.len() + 2 > usize::MAX
    ||| objective.p.edits() + outline.quadratic.len() + 1 >= usize::MAX
}

pub open spec fn entry_total(rows: Seq<NewRow>) -> nat
    decreases rows.len(),
{
    if rows.len() == 0 {
        0
    } else {
        entry_total(rows.drop_last()) + rows.last().1.len()
    }
}

pub(crate) proof fn totals_agree(updates: Seq<RowUpdate>)
    ensures
        entry_total(new_rows(updates)) == assembly::total_entries(batch::row_entries(updates)),
    decreases updates.len(),
{
    if updates.len() > 0 {
        totals_agree(updates.drop_last());
        assert(new_rows(updates).drop_last() =~= new_rows(updates.drop_last()));
        assert(batch::row_entries(updates).drop_last() =~= batch::row_entries(
            updates.drop_last(),
        ));
    }
}

pub(crate) fn count_entries(updates: &Vec<RowUpdate>) -> (n: u128)
    ensures
        n == entry_total(new_rows(updates@)),
{
    let ghost all = new_rows(updates@);
    let mut n: u128 = 0;
    let mut u: usize = 0;
    assert(all.take(0) =~= Seq::<NewRow>::empty());
    assert(updates.len() == updates@.len());
    while u < updates.len()
        invariant
            u <= updates@.len() <= usize::MAX,
            all == new_rows(updates@),
            n <= u * (usize::MAX as u128),
            n == entry_total(all.take(u as int)),
        decreases updates@.len() - u,
    {
        proof {
            assert(all.take(u + 1).drop_last() =~= all.take(u as int));
            assert(all.take(u + 1).last().1 == updates@[u as int].1@);
            assert((u + 1) * (usize::MAX as u128) == u * (usize::MAX as u128) + usize::MAX)
                by (nonlinear_arith);
            assert((u + 1) * (usize::MAX as u128) <= u128::MAX) by (nonlinear_arith)
                requires
                    u + 1 <= usize::MAX,
            ;
        }
        n = n + updates[u].1.len() as u128;
        u = u + 1;
    }
    assert(all.take(u as int) =~= all);
    n
}

impl<
    P: Fn(Real, Real) -> Real,
    T: Fn(Real, Real) -> Real,
    D: Fn(Real, Real) -> Real,
    H: Fn(Real, Real) -> Real,
> Arithmetic<P, T, D, H> {
    /// What an elimination did: it went as planned, or nothing changed and the
    /// failure says why.
    pub open spec fn elimination_outcome<E: Fn() -> bool>(
        &self,
        before: Model,
        costs: Objective,
        after: Model,
        new_costs: Objective,
        column: usize,
        equation: Equation,
        effective: Bounds,
        max_fill: nat,
        allow_growth: bool,
        expired: E,
        r: Result<(), Failure>,
    ) -> bool {
        let goal = self.elimination(
            before,
            costs,
            column,
            equation,
            effective,
            max_fill,
            allow_growth,
        );
        match r {
            Ok(_) => {
                &&& goal matches Ok((rows, outline)) && {
                    &&& eliminated(
                        before,
                        after,
                        column,
                        equation,
                        rows,
                        listing::line(costs.p@, false, column as int),
                        self.equation_slopes(
                            equation.entries@,
                            column,
                            linked::value_at(
                                before.a@,
                                equation.row as int,
                                column as int,
                            ),
                        ),
                    )
                    &&& substitution::applied(
                        costs,
                        new_costs,
                        column,
                        outline,
                    )
                }
                &&& after.alive@ == before.alive@.update(column as int, false)
                &&& after.bounds@ == before.bounds@
                &&& forall|i: int| !(#[trigger] after.a@.contains_key((i, column as int)))
                &&& after.tape@.len() == before.tape@.len() + 1
                &&& after.tape@.drop_last() == before.tape@
                &&& records_elimination(
                    after.tape@.last(),
                    before,
                    costs,
                    column,
                    equation,
                    effective,
                )
            },
            Err(e) => {
                &&& after == before
                &&& new_costs == costs
                &&& match e {
                    Failure::Deadline => call_ensures(expired, (), true),
                    Failure::Capacity => goal matches Ok((rows, outline)) && overfull(
                        before,
                        costs,
                        rows,
                        outline,
                    ),
                    _ => goal == Err::<(Seq<NewRow>, Outline), Failure>(e),
                }
            },
        }
    }

    /// Eliminate a variable through an equation, in the rows and in the
    /// objective. A refusal changes nothing.
    pub fn substitute_equation<E: Fn() -> bool>(
        &self,
        model: &mut Model,
        objective: &mut Objective,
        column: usize,
        equation: Equation,
        effective: Bounds,
        max_fill: usize,
        allow_growth: bool,
        expired: &E,
    ) -> (r: Result<(), Failure>)
        requires
            self.wf(),
            old(model).wf(),
            old(objective).wf(),
            old(objective).c@.len() == old(model).bounds@.len(),
            call_requires(*expired, ()),
            column < old(model).bounds@.len(),
            equation.row < old(model).rows@.len(),
            linked::lists_line(equation.entries@, old(model).a@, false, equation.row as int),
        ensures
            final(model).wf(),
            final(objective).wf(),
            final(objective).c@.len() == final(model).bounds@.len(),
            self.elimination_outcome(
                *old(model),
                *old(objective),
                *final(model),
                *final(objective),
                column,
                equation,
                effective,
                max_fill as nat,
                allow_growth,
                *expired,
                r,
            ),
    {
        let ghost start = *model;
        let ghost before = *objective;
        let (updates, other_rows, slopes, plan): (Vec<RowUpdate>, Entries, Entries, Plan) =
            match self.plan_elimination(
            model,
            objective,
            column,
            &equation,
            effective,
            max_fill,
            allow_growth,
            expired,
        ) {
            Ok(r) => r,
            Err(e) => {
                proof {
                    if e == Failure::Capacity {
                        self.elimination_never_full(
                            start,
                            before,
                            column,
                            equation,
                            effective,
                            max_fill as nat,
                            allow_growth,
                        );
                    }
                }
                return Err(e);
            },
        };
        let total: u128 = count_entries(&updates);
        proof {
            totals_agree(updates@);
            model.a.stored_count_fits();
        }
        assert(updates.len() == updates@.len());
        let stored: u128 = model.a.nnz() as u128;
        if total > NONE as u128 || stored + total > NONE as u128 {
            return Err(Failure::Capacity);
        }
        if model.revision as u128 + updates.len() as u128 + 1 > usize::MAX as u128 {
            return Err(Failure::Capacity);
        }
        let places: u128 = objective.p.nnz() as u128 + 2 * (plan.quadratic.len() as u128) + 2;
        let edits: u128 = objective.p.revision() as u128 + plan.quadratic.len() as u128 + 1;
        if places >= 2 * (NONE as u128) || places > usize::MAX as u128 || edits
            >= usize::MAX as u128 {
            return Err(Failure::Capacity);
        }
        objective.commit(column, &plan);
        model.note_columns(&plan.gradient.terms);
        model.note_columns(&slopes);
        model.alive.set(column, false);
        let ghost first = *model;
        model.replace_in_turn(&updates);
        let ghost second = *model;
        let retained = !(effective.lower.equals(neg_infinity()) && effective.upper.equals(
            infinity(),
        ));
        proof {
            start.a.stored_positions();
            tape::line_fits(equation, start.a@, column, start.bounds@.len(), start.rows@.len());
        }
        model.tape.push(
            Rule::Substituted { column, equation, gradient: plan.gradient, other_rows, retained },
        );
        model.revision = model.revision + 1;
        proof {
            assert(model.tape@.drop_last() =~= start.tape@);
            assert(staged(start, first, column, plan.gradient.terms@, slopes@));
            assert(rewrite::rewritten(first, second, updates@, updates@.len()));
            assert forall|i: int| !(#[trigger] model.a@.contains_key((i, column as int))) by {
                if model.a@.contains_key((i, column as int)) {
                    if batch::names_row(updates@, updates@.len() as int, i) {
                        let u = choose|u: int|
                            0 <= u < updates@.len() && (#[trigger] updates@[u]).0 == i;
                        assert(model.a@.contains_key(linked::place(false, i, column as int)));
                        let k = choose|k: int|
                            0 <= k < updates@[u].1@.len() && (#[trigger] updates@[u].1@[k]).0
                                == column;
                        assert(updates@[u].1@[k].0 != column);
                    } else {
                        assert(start.a@.contains_key((i, column as int)));
                    }
                }
            }
        }
        Ok(())
    }

    /// The plan itself never runs out of storage.
    proof fn elimination_never_full(
        &self,
        model: Model,
        objective: Objective,
        column: usize,
        equation: Equation,
        effective: Bounds,
        max_fill: nat,
        allow_growth: bool,
    )
        ensures
            self.elimination(
                model,
                objective,
                column,
                equation,
                effective,
                max_fill,
                allow_growth,
            ) != Err::<(Seq<NewRow>, Outline), Failure>(Failure::Capacity),
    {
        let row = equation.row;
        let pivot = linked::value_at(model.a@, row as int, column as int);
        let offset = self.quotient(equation.bounds.lower, pivot);
        let slopes = self.equation_slopes(equation.entries@, column, pivot);
        let other_rows = objective::others(listing::line(model.a@, true, column as int), row);
        self.rows_never_full(model, other_rows, column, offset, slopes, max_fill);
        if let Ok((rows, fill)) = self.rows_planned(
            model,
            other_rows,
            column,
            offset,
            slopes,
            max_fill,
        ) {
            self.plan_never_full(
                objective,
                listing::line(objective.p@, false, column as int),
                column,
                offset,
                slopes,
                (max_fill - fill) as nat,
                allow_growth,
            );
        }
    }

    proof fn rows_never_full(
        &self,
        model: Model,
        list: Seq<(usize, Real)>,
        column: usize,
        offset: Real,
        slopes: Seq<(usize, Real)>,
        max_fill: nat,
    )
        ensures
            self.rows_planned(model, list, column, offset, slopes, max_fill) != Err::<
                (Seq<NewRow>, nat),
                Failure,
            >(Failure::Capacity),
        decreases list.len(),
    {
        if list.len() > 0 {
            self.rows_never_full(model, list.drop_last(), column, offset, slopes, max_fill);
            if let Ok((rows, fill)) = self.rows_planned(
                model,
                list.drop_last(),
                column,
                offset,
                slopes,
                max_fill,
            ) {
                let (i, a) = list.last();
                let own = objective::others(listing::line(model.a@, false, i as int), column);
                self.row_never_full(objective::affected(own, slopes), a, fill, max_fill);
            }
        }
    }

    proof fn row_never_full(&self, list: Seq<Affected>, a: Real, fill: nat, max_fill: nat)
        ensures
            self.row_merged(list, a, fill, max_fill) != Err::<(Seq<(usize, Real)>, nat), Failure>(
                Failure::Capacity,
            ),
        decreases list.len(),
    {
        if list.len() > 0 {
            self.row_never_full(list.drop_last(), a, fill, max_fill);
        }
    }
}

} // verus!
