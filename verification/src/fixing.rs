//! Fixing a variable and substituting it, in the rows and in the objective.

use crate::arithmetic::Arithmetic;
use crate::bounds::{Bounds, RowDomain};
use crate::linked::{self, Entries, NONE};
use crate::listing;
use crate::model::{self, Model};
use crate::number::Real;
use crate::objective::{self, Failure, Objective};
use crate::substitution::{self, Outline};
use crate::tape::{Equation, Rule};
use crate::transaction;
use vstd::prelude::*;

verus! {

impl<
    P: Fn(Real, Real) -> Real,
    T: Fn(Real, Real) -> Real,
    D: Fn(Real, Real) -> Real,
    H: Fn(Real, Real) -> Real,
> Arithmetic<P, T, D, H> {
    /// The domain of each row of a column once the variable has a value.
    pub open spec fn fixed_domains(
        &self,
        rows: Seq<RowDomain>,
        entries: Seq<(usize, Real)>,
        value: Real,
    ) -> Option<Seq<RowDomain>>
        decreases entries.len(),
    {
        if entries.len() == 0 {
            Some(Seq::empty())
        } else {
            let (i, a) = entries.last();
            match (
                self.fixed_domains(rows, entries.drop_last(), value),
                self.domain_shifted(rows[i as int], self.product(a, value)),
            ) {
                (Some(list), Some(domain)) => Some(list.push(domain)),
                _ => None,
            }
        }
    }

    proof fn fixed_domains_refuse(
        &self,
        rows: Seq<RowDomain>,
        entries: Seq<(usize, Real)>,
        value: Real,
        n: int,
    )
        requires
            0 <= n <= entries.len(),
            self.fixed_domains(rows, entries.take(n), value) is None,
        ensures
            self.fixed_domains(rows, entries, value) is None,
        decreases entries.len(),
    {
        if n < entries.len() {
            assert(entries.drop_last().take(n) =~= entries.take(n));
            self.fixed_domains_refuse(rows, entries.drop_last(), value, n);
        } else {
            assert(entries.take(n) =~= entries);
        }
    }

    fn domains_of(&self, model: &Model, entries: &Entries, value: Real) -> (r: Option<
        Vec<RowDomain>,
    >)
        requires
            self.wf(),
            model::in_range(entries@, model.rows@.len()),
        ensures
            match r {
                Some(list) => {
                    &&& self.fixed_domains(model.rows@, entries@, value) == Some(list@)
                    &&& list@.len() == entries@.len()
                    &&& forall|k: int|
                        0 <= k < entries@.len() ==> transaction::same_sides(
                            model.rows@[(#[trigger] entries@[k]).0 as int],
                            list@[k],
                        )
                },
                None => self.fixed_domains(model.rows@, entries@, value) is None,
            },
    {
        let mut list: Vec<RowDomain> = Vec::new();
        let mut k: usize = 0;
        assert(entries@.take(0) =~= Seq::<(usize, Real)>::empty());
        assert(list@ =~= Seq::<RowDomain>::empty());
        while k < entries.len()
            invariant
                k <= entries@.len(),
                self.wf(),
                model::in_range(entries@, model.rows@.len()),
                list@.len() == k,
                self.fixed_domains(model.rows@, entries@.take(k as int), value) == Some(list@),
                forall|i: int|
                    0 <= i < k ==> transaction::same_sides(
                        model.rows@[(#[trigger] entries@[i]).0 as int],
                        list@[i],
                    ),
            decreases entries@.len() - k,
        {
            let (i, a): (usize, Real) = entries[k];
            assert(entries@[k as int].0 < model.rows@.len());
            proof {
                assert(entries@.take(k + 1).drop_last() =~= entries@.take(k as int));
                assert(entries@.take(k + 1).last() == (i, a));
            }
            match self.shifted(model.rows[i], self.product_of(a, value)) {
                Some(domain) => {
                    list.push(domain);
                },
                None => {
                    proof {
                        self.fixed_domains_refuse(model.rows@, entries@, value, k + 1);
                    }
                    return None;
                },
            }
            k = k + 1;
        }
        assert(entries@.take(k as int) =~= entries@);
        Some(list)
    }

    /// What fixing a variable changes, where nothing overflows.
    pub open spec fn fixing(
        &self,
        model: Model,
        objective: Objective,
        column: usize,
        value: Real,
    ) -> Option<(Seq<RowDomain>, Outline)> {
        match (
            self.fixed_domains(
                model.rows@,
                listing::line(model.a@, true, column as int),
                value,
            ),
            self.planned(
                objective,
                listing::line(objective.p@, false, column as int),
                column,
                value,
                Seq::empty(),
                0,
                false,
            ),
        ) {
            (Some(domains), Ok(outline)) => Some((domains, outline)),
            _ => None,
        }
    }

    /// The model and the objective once a variable is fixed.
    pub open spec fn fixed_to(
        &self,
        before: Model,
        costs: Objective,
        after: Model,
        new_costs: Objective,
        column: usize,
        value: Real,
    ) -> bool {
        let entries = listing::line(before.a@, true, column as int);
        &&& self.fixing(before, costs, column, value) matches Some((domains, outline)) && {
            &&& substitution::applied(costs, new_costs, column, outline)
            &&& after.rows@ == transaction::domains_set(before.rows@, entries, domains)
        }
        &&& after.a@ =~= before.a@.remove_keys(
            before.a@.dom().filter(|p: (int, int)| p.1 == column),
        )
        &&& after.bounds@ == before.bounds@
        &&& after.alive@ == before.alive@.update(column as int, false)
        &&& after.revision == before.revision + 1
        &&& after.tape@.len() == before.tape@.len() + 1
        &&& after.tape@.drop_last() == before.tape@
        &&& after.tape@.last() matches Rule::Fixed { column: c, value: v, gradient, entries: e }
            && c == column && v == value && e@ == entries && gradient.constant
            == costs.c@[column as int] && gradient.terms@ == listing::line(
            costs.p@,
            false,
            column as int,
        )
    }

    /// Fix a variable: move its value into the sides of its rows and into the
    /// objective. Nothing changes where a coefficient would not stay finite, or
    /// where the counters are exhausted.
    pub fn fix_variable(
        &self,
        model: &mut Model,
        objective: &mut Objective,
        column: usize,
        value: Real,
    ) -> (done: bool)
        requires
            self.wf(),
            old(model).wf(),
            old(objective).wf(),
            old(objective).c@.len() == old(model).bounds@.len(),
            column < old(model).bounds@.len(),
            old(model).alive@[column as int],
        ensures
            final(model).wf(),
            final(objective).wf(),
            final(objective).c@.len() == final(model).bounds@.len(),
            !done ==> *final(model) == *old(model) && *final(objective) == *old(objective),
            !done ==> match self.fixing(*old(model), *old(objective), column, value) {
                None => true,
                Some((_, outline)) => old(model).revision == usize::MAX || exhausted(
                    *old(objective),
                    outline,
                ),
            },
            final(model).rows@.len() == old(model).rows@.len(),
            done ==> self.fixed_to(
                *old(model),
                *old(objective),
                *final(model),
                *final(objective),
                column,
                value,
            ),
    {
        if model.revision == usize::MAX {
            return false;
        }
        let entries = model.column_entries(column);
        let domains = match self.domains_of(model, &entries, value) {
            Some(list) => list,
            None => {
                return false;
            },
        };
        let none: Entries = Vec::new();
        assert(none@ =~= Seq::<(usize, Real)>::empty());
        let never = || -> (b: bool)
            ensures
                !b,
            { false };
        let ghost start = *objective;
        let plan = match self.plan_substitution(objective, column, value, &none, 0, false, &never) {
            Ok(plan) => plan,
            Err(e) => {
                proof {
                    if e != Failure::Deadline {
                        let terms = choose|terms: Seq<(usize, Real)>|
                            linked::lists_line(terms, objective.p@, false, column as int)
                                && #[trigger] self.planned(
                                *objective,
                                terms,
                                column,
                                value,
                                none@,
                                0,
                                false,
                            ) == Err::<Outline, Failure>(e);
                        listing::line_is(terms, objective.p@, false, column as int);
                    }
                }
                return false;
            },
        };
        proof {
            listing::line_is(plan.gradient.terms@, objective.p@, false, column as int);
        }
        let places: u128 = objective.p.nnz() as u128 + 2 * (plan.quadratic.len() as u128) + 2;
        let edits: u128 = objective.p.revision() as u128 + plan.quadratic.len() as u128 + 1;
        if places >= 2 * (NONE as u128) || places > usize::MAX as u128 || edits
            >= usize::MAX as u128 {
            return false;
        }
        let ghost before = *model;
        proof {
            objective.p.stored_positions();
            let terms = plan.gradient.terms@;
            assert forall|k: int| 0 <= k < terms.len() implies (#[trigger] terms[k]).0
                < model.a.column_count() by {
                assert(objective.p@.contains_key(
                    linked::place(false, column as int, terms[k].0 as int),
                ));
                assert(objective.p@.contains_key((column as int, terms[k].0 as int)));
            }
            assert forall|other: Seq<(usize, Real)>| #[trigger]
                linked::lists_line(other, before.a@, true, column as int) implies domains@.len()
                == other.len() && forall|k: int|
                0 <= k < other.len() ==> transaction::same_sides(
                    before.rows@[(#[trigger] other[k]).0 as int],
                    domains@[k],
                ) by {
                linked::listing_is_unique(other, entries@, before.a@, true, column as int);
            }
        }
        objective.commit(column, &plan);
        let coupled = crate::batch::copy_entries(&plan.gradient.terms);
        let removed = model.fix(column, value, &domains, &coupled, plan.gradient);
        proof {
            linked::listing_is_unique(removed@, entries@, before.a@, true, column as int);
            transaction::domains_set_length(before.rows@, entries@, domains@);
            assert(model.tape@.drop_last() =~= before.tape@);
            let gone = before.a@.dom().filter(|p: (int, int)| p.1 == column);
            assert(model.a@ =~= before.a@.remove_keys(gone));
            assert(self.fixed_to(before, start, *model, *objective, column, value));
        }
        true
    }

    /// What a substitution through an equality row did.
    pub open spec fn substituted_through<E: Fn() -> bool>(
        &self,
        before: Model,
        costs: Objective,
        after: Model,
        new_costs: Objective,
        row: usize,
        column: usize,
        effective: Bounds,
        max_fill: nat,
        allow_growth: bool,
        expired: E,
        r: Result<(), Failure>,
    ) -> bool {
        exists|equation: Equation|
            {
                &&& equation.row == row
                &&& RowDomain::Linear(equation.bounds) == before.rows@[row as int]
                &&& linked::lists_line(equation.entries@, before.a@, false, row as int)
                &&& #[trigger] self.elimination_outcome(
                    before,
                    costs,
                    after,
                    new_costs,
                    column,
                    equation,
                    effective,
                    max_fill,
                    allow_growth,
                    expired,
                    r,
                )
            }
    }

    /// What a substitution on one side of a row did.
    pub open spec fn substituted_on_side<E: Fn() -> bool>(
        &self,
        before: Model,
        costs: Objective,
        after: Model,
        new_costs: Objective,
        row: usize,
        column: usize,
        side: Real,
        effective: Bounds,
        max_fill: nat,
        allow_growth: bool,
        expired: E,
        r: Result<(), Failure>,
    ) -> bool {
        exists|equation: Equation|
            {
                &&& equation.row == row
                &&& equation.bounds == Bounds::fixed(side)
                &&& linked::lists_line(equation.entries@, before.a@, false, row as int)
                &&& #[trigger] self.elimination_outcome(
                    before,
                    costs,
                    after,
                    new_costs,
                    column,
                    equation,
                    effective,
                    max_fill,
                    allow_growth,
                    expired,
                    r,
                )
            }
    }

    /// Substitute through an equality row, unless it is none, the variable is
    /// gone, or the elimination is refused.
    pub fn substitute<E: Fn() -> bool>(
        &self,
        model: &mut Model,
        objective: &mut Objective,
        row: usize,
        column: usize,
        effective: Bounds,
        max_fill: usize,
        allow_growth: bool,
        expired: &E,
    ) -> (r: Option<Result<(), Failure>>)
        requires
            self.wf(),
            old(model).wf(),
            old(objective).wf(),
            old(objective).c@.len() == old(model).bounds@.len(),
            call_requires(*expired, ()),
            column < old(model).bounds@.len(),
            row < old(model).rows@.len(),
        ensures
            final(model).wf(),
            final(objective).wf(),
            final(objective).c@.len() == final(model).bounds@.len(),
            r is None <==> !(old(model).rows@[row as int] matches RowDomain::Linear(b)
                && b.is_equality()) || !old(model).alive@[column as int],
            r is None ==> *final(model) == *old(model) && *final(objective) == *old(objective),
            r matches Some(result) ==> self.substituted_through(
                *old(model),
                *old(objective),
                *final(model),
                *final(objective),
                row,
                column,
                effective,
                max_fill as nat,
                allow_growth,
                *expired,
                result,
            ),
    {
        let equation = match model.equation(row) {
            Some(e) => e,
            None => {
                return None;
            },
        };
        if !equation.bounds.equality() || !model.alive[column] {
            return None;
        }
        let ghost e = equation;
        let ghost (m, o) = (*model, *objective);
        let r = self.substitute_equation(
            model,
            objective,
            column,
            equation,
            effective,
            max_fill,
            allow_growth,
            expired,
        );
        assert(
            self.elimination_outcome(
                m,
                o,
                *model,
                *objective,
                column,
                e,
                effective,
                max_fill as nat,
                allow_growth,
                *expired,
                r,
            )
        );
        Some(r)
    }

    /// Substitute on one finite side of an inequality row. The caller knows that
    /// the side can be active at an optimum.
    pub fn substitute_on_side<E: Fn() -> bool>(
        &self,
        model: &mut Model,
        objective: &mut Objective,
        row: usize,
        column: usize,
        side: Real,
        effective: Bounds,
        max_fill: usize,
        allow_growth: bool,
        expired: &E,
    ) -> (r: Option<Result<(), Failure>>)
        requires
            self.wf(),
            old(model).wf(),
            old(objective).wf(),
            old(objective).c@.len() == old(model).bounds@.len(),
            call_requires(*expired, ()),
            column < old(model).bounds@.len(),
            row < old(model).rows@.len(),
        ensures
            final(model).wf(),
            final(objective).wf(),
            final(objective).c@.len() == final(model).bounds@.len(),
            r is None <==> !(old(model).rows@[row as int] is Linear) || !side.finite() || !old(
                model,
            ).alive@[column as int],
            r is None ==> *final(model) == *old(model) && *final(objective) == *old(objective),
            r matches Some(result) ==> self.substituted_on_side(
                *old(model),
                *old(objective),
                *final(model),
                *final(objective),
                row,
                column,
                side,
                effective,
                max_fill as nat,
                allow_growth,
                *expired,
                result,
            ),
    {
        let linear = match model.rows[row] {
            RowDomain::Linear(_) => true,
            _ => false,
        };
        if !linear || !side.is_finite() || !model.alive[column] {
            return None;
        }
        let entries = model.row_entries(row);
        let equation = Equation { row, entries, bounds: Bounds::fixed(side) };
        let ghost e = equation;
        let ghost (m, o) = (*model, *objective);
        let r = self.substitute_equation(
            model,
            objective,
            column,
            equation,
            effective,
            max_fill,
            allow_growth,
            expired,
        );
        assert(
            self.elimination_outcome(
                m,
                o,
                *model,
                *objective,
                column,
                e,
                effective,
                max_fill as nat,
                allow_growth,
                *expired,
                r,
            )
        );
        Some(r)
    }
}

/// The Hessian storage or its counters cannot take an update.
pub open spec fn exhausted(objective: Objective, outline: Outline) -> bool {
    ||| objective.p@.dom().len() + 2 * outline.quadratic.len() + 2 >= 2 * NONE
    ||| objective.p@.dom().len() + 2 * outline.quadratic.len() + 2 > usize::MAX
    ||| objective.p.edits() + outline.quadratic.len() + 1 >= usize::MAX
}

} // verus!
