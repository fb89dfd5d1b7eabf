//! Reductions that follow from bounds on the multipliers.
//!
//! A row whose multiplier has a strict sign holds with equality on one side, and
//! a column whose reduced cost has one rests on a bound. Each conclusion comes
//! with a direction that moves any feasible point there, so it needs no optimal
//! solution to exist.

use crate::activity::{self, Activity};
use crate::arithmetic::Arithmetic;
use crate::bounds::{Bounds, RowDomain, Side};
use crate::direction::{self, used_bound, slot, Aim, Judgement};
use crate::linked::Entries;
use crate::listing;
use crate::model::{self, Model};
use crate::multipliers::{self, Gains, Halt, Propagation};
use crate::number::{one, zero, Real};
use crate::objective::Objective;
use crate::settings::WorkLimit;
use crate::passes::{self, Work};
use vstd::prelude::*;

verus! {

/// What became of a conclusion.
#[derive(Clone, Debug)]
pub enum Outcome {
    /// Nothing to conclude, or its direction was not usable.
    Unchanged,
    Reduced,
    /// The direction proves that the objective has no lower bound.
    Ray(Entries),
}

/// A value on one side of an interval.
pub open spec fn side_value(b: Bounds, side: Side) -> Real {
    match side {
        Side::Lower => b.lower,
        Side::Upper => b.upper,
    }
}

/// A model, its objective and the allowance for directions.
pub ghost struct Standing {
    pub model: Model,
    pub objective: Objective,
    pub left: usize,
}

/// The weights at the start of a row's proof: all on its latest record.
pub open spec fn row_weights(records: nat, list: Seq<usize>) -> Seq<Option<Real>> {
    let none = Seq::new(records, |k: int| None);
    if list.len() == 0 {
        none
    } else {
        none.update(list.last() as int, Some(one()))
    }
}

impl<
    P: Fn(Real, Real) -> Real,
    T: Fn(Real, Real) -> Real,
    D: Fn(Real, Real) -> Real,
    H: Fn(Real, Real) -> Real,
> Arithmetic<P, T, D, H> {
    /// The weights at the start of a column's proof: each term's coefficient on
    /// the latest record of the bound that it used.
    pub open spec fn column_weights(
        &self,
        weights: Seq<Option<Real>>,
        entries: Seq<(usize, Real)>,
        side: Side,
        proofs: Seq<Vec<usize>>,
        k: int,
    ) -> Seq<Option<Real>>
        decreases entries.len() - k,
    {
        if k >= entries.len() {
            weights
        } else {
            let (i, a) = entries[k];
            let list = proofs[direction::place_of(i as int, direction::extremal(side, a))]@;
            let next = if list.len() == 0 {
                weights
            } else {
                let s = list.last() as int;
                weights.update(
                    s,
                    Some(
                        self.sum(
                            match weights[s] {
                                Some(w) => w,
                                None => zero(),
                            },
                            a.absolute(),
                        ),
                    ),
                )
            };
            self.column_weights(next, entries, side, proofs, k + 1)
        }
    }

    /// The side that a row holds with equality, by the sign of its multiplier.
    pub open spec fn row_side(&self, model: Model, y: Bounds, i: int, gains: Gains) -> Option<Side> {
        match model.rows@[i] {
            RowDomain::Linear(b) => if b.is_equality() || listing::line(model.a@, false, i).len()
                == 0 {
                None
            } else if b.lower.finite() && self.apart(y.lower, zero(), gains.feasibility) {
                Some(Side::Lower)
            } else if b.upper.finite() && self.apart(zero(), y.upper, gains.feasibility) {
                Some(Side::Upper)
            } else {
                None
            },
            _ => None,
        }
    }

    /// The activity of a column's dual row: that of its latest visit, unless the
    /// propagation stopped early.
    pub open spec fn dual_activity(&self, model: Model, work: Propagation, j: int) -> Activity {
        match work.activity@[j] {
            Some(a) if work.halt is Running => a,
            _ => self.span(listing::line(model.a@, true, j), work.y@),
        }
    }

    /// The bound on which a column rests, by the sign of its reduced cost.
    pub open spec fn column_side(
        &self,
        model: Model,
        objective: Objective,
        work: Propagation,
        j: int,
        gains: Gains,
    ) -> Option<Side> {
        let b = model.bounds@[j];
        let c = objective.c@[j];
        if !direction::linear_column(model, objective, j) || listing::line(
            model.a@,
            true,
            j,
        ).len() == 0 || b.is_equality() || !(b.lower.finite() || b.upper.finite()) {
            None
        } else {
            let activity = self.dual_activity(model, work, j);
            if b.lower.finite() && (activity.max.finite_value() matches Some(v) && self.apart(
                self.difference(c, v),
                zero(),
                gains.feasibility,
            )) {
                Some(Side::Lower)
            } else if b.upper.finite() && (activity.min.finite_value() matches Some(v)
                && self.apart(zero(), self.difference(c, v), gains.feasibility)) {
                Some(Side::Upper)
            } else {
                None
            }
        }
    }

    /// A direction that reaches its aim is used; nothing else changes a thing.
    /// A reduction that was refused for want of numbers leaves all as it was.
    pub open spec fn concluded(
        &self,
        before: Standing,
        after: Standing,
        verdict: (direction::Trail, Option<bool>),
        aim: Aim,
        outcome: Outcome,
    ) -> bool {
        &&& after.left == verdict.0.left
        &&& match outcome {
            Outcome::Unchanged => after.model == before.model && after.objective
                == before.objective && match verdict.1 {
                None => true,
                Some(true) => match aim {
                    Aim::Fix(q, side) => self.fixing(
                        before.model,
                        before.objective,
                        q,
                        side_value(before.model.bounds@[q as int], side),
                    ) matches Some((_, outline)) ==> before.model.revision == usize::MAX
                        || crate::fixing::exhausted(before.objective, outline),
                    Aim::Restrict(_, _) => before.model.revision == usize::MAX,
                },
                Some(false) => false,
            },
            Outcome::Ray(ray) => after.model == before.model && after.objective
                == before.objective && verdict.1 == Some(false) && direction::ray_of(
                ray@,
                verdict.0.lambda,
                verdict.0.touched,
            ),
            Outcome::Reduced => verdict.1 == Some(true) && match aim {
                Aim::Fix(q, side) => self.fixed_to(
                    before.model,
                    before.objective,
                    after.model,
                    after.objective,
                    q,
                    side_value(before.model.bounds@[q as int], side),
                ),
                Aim::Restrict(i, side) => {
                    &&& after.objective == before.objective
                    &&& after.model.a == before.model.a
                    &&& after.model.bounds@ == before.model.bounds@
                    &&& after.model.tape@ == before.model.tape@
                    &&& before.model.rows@[i as int] matches RowDomain::Linear(b)
                        && after.model.rows@ == before.model.rows@.update(
                        i as int,
                        RowDomain::Linear(Bounds::fixed(side_value(b, side))),
                    )
                },
            },
        }
    }

    /// Check the direction of a proof on the current model, and apply what it is for.
    pub fn apply_direction(
        &self,
        model: &mut Model,
        objective: &mut Objective,
        work: &Propagation,
        weights: Vec<Option<Real>>,
        seed: Option<(usize, Side)>,
        aim: Aim,
        left: usize,
    ) -> (r: (Outcome, usize))
        requires
            self.wf(),
            old(model).wf(),
            old(objective).wf(),
            old(objective).c@.len() == old(model).bounds@.len(),
            work.fits(old(model).rows@.len(), old(model).bounds@.len()),
            weights@.len() == work.records@.len(),
            seed matches Some((q, _)) ==> q < old(model).bounds@.len(),
            match aim {
                Aim::Fix(q, _) => q < old(model).bounds@.len() && old(model).alive@[q as int],
                Aim::Restrict(i, _) => i < old(model).rows@.len()
                    && old(model).rows@[i as int] is Linear,
            },
        ensures
            final(model).wf(),
            final(objective).wf(),
            final(objective).c@.len() == final(model).bounds@.len(),
            final(model).rows@.len() == old(model).rows@.len(),
            final(model).bounds@.len() == old(model).bounds@.len(),
            self.concluded(
                (Standing { model: *old(model), objective: *old(objective), left }),
                (Standing { model: *final(model), objective: *final(objective), left: r.1 }),
                self.direction(
                    *old(model),
                    *old(objective),
                    work.records@,
                    work.proofs@,
                    weights@,
                    seed,
                    aim,
                    left,
                ),
                aim,
                r.0,
            ),
    {
        let (judgement, rest): (Judgement, usize) = self.judge_direction(
            model,
            objective,
            &work.records,
            &work.proofs,
            weights,
            seed,
            aim,
            left,
        );
        match judgement {
            Judgement::Refused => (Outcome::Unchanged, rest),
            Judgement::Ray(ray) => (Outcome::Ray(ray), rest),
            Judgement::Reaches => match aim {
                Aim::Fix(q, side) => {
                    let value = match side {
                        Side::Lower => model.bounds[q].lower,
                        Side::Upper => model.bounds[q].upper,
                    };
                    if self.fix_variable(model, objective, q, value) {
                        (Outcome::Reduced, rest)
                    } else {
                        (Outcome::Unchanged, rest)
                    }
                },
                Aim::Restrict(i, side) => {
                    if model.revision == usize::MAX {
                        return (Outcome::Unchanged, rest);
                    }
                    let value = match model.rows[i] {
                        RowDomain::Linear(b) => match side {
                            Side::Lower => b.lower,
                            Side::Upper => b.upper,
                        },
                        _ => zero(),
                    };
                    model.replace_row_bounds(i, Bounds::fixed(value));
                    (Outcome::Reduced, rest)
                },
            },
        }
    }

    /// What one row concludes.
    pub open spec fn row_turn(
        &self,
        before: Standing,
        after: Standing,
        work: Propagation,
        i: usize,
        gains: Gains,
        outcome: Outcome,
    ) -> bool {
        match self.row_side(before.model, work.y@[i as int], i as int, gains) {
            None => after == before && outcome is Unchanged,
            Some(side) => self.concluded(
                before,
                after,
                self.direction(
                    before.model,
                    before.objective,
                    work.records@,
                    work.proofs@,
                    row_weights(
                        work.records@.len(),
                        work.proofs@[direction::place_of(i as int, side)]@,
                    ),
                    None,
                    Aim::Restrict(i, side),
                    before.left,
                ),
                Aim::Restrict(i, side),
                outcome,
            ),
        }
    }

    /// What one column concludes.
    pub open spec fn column_turn(
        &self,
        before: Standing,
        after: Standing,
        work: Propagation,
        j: usize,
        gains: Gains,
        outcome: Outcome,
    ) -> bool {
        match self.column_side(before.model, before.objective, work, j as int, gains) {
            None => after == before && outcome is Unchanged,
            Some(side) => self.concluded(
                before,
                after,
                self.direction(
                    before.model,
                    before.objective,
                    work.records@,
                    work.proofs@,
                    self.column_weights(
                        Seq::new(work.records@.len(), |k: int| None),
                        listing::line(before.model.a@, true, j as int),
                        side,
                        work.proofs@,
                        0,
                    ),
                    Some((j, side)),
                    Aim::Fix(j, side),
                    before.left,
                ),
                Aim::Fix(j, side),
                outcome,
            ),
        }
    }

    /// Restrict a row to one side, if the sign of its multiplier calls for it.
    pub fn conclude_row(
        &self,
        model: &mut Model,
        objective: &mut Objective,
        work: &Propagation,
        i: usize,
        gains: Gains,
        left: usize,
    ) -> (r: (Outcome, usize))
        requires
            self.wf(),
            old(model).wf(),
            old(objective).wf(),
            old(objective).c@.len() == old(model).bounds@.len(),
            work.fits(old(model).rows@.len(), old(model).bounds@.len()),
            2 * old(model).rows@.len() <= usize::MAX,
            i < old(model).rows@.len(),
        ensures
            final(model).wf(),
            final(objective).wf(),
            final(objective).c@.len() == final(model).bounds@.len(),
            final(model).rows@.len() == old(model).rows@.len(),
            final(model).bounds@.len() == old(model).bounds@.len(),
            self.row_turn(
                (Standing { model: *old(model), objective: *old(objective), left }),
                (Standing { model: *final(model), objective: *final(objective), left: r.1 }),
                *work,
                i,
                gains,
                r.0,
            ),
    {
        let b = match model.rows[i] {
            RowDomain::Linear(b) => b,
            _ => {
                return (Outcome::Unchanged, left);
            },
        };
        let entries = model.row_entries(i);
        if b.equality() || entries.len() == 0 {
            return (Outcome::Unchanged, left);
        }
        let y = work.y[i];
        let side = if b.lower.is_finite() && self.separated(y.lower, zero(), gains.feasibility) {
            Side::Lower
        } else if b.upper.is_finite() && self.separated(zero(), y.upper, gains.feasibility) {
            Side::Upper
        } else {
            return (Outcome::Unchanged, left);
        };
        let mut weights: Vec<Option<Real>> = vec![None; work.records.len()];
        assert(weights@ =~= Seq::new(work.records@.len(), |k: int| None));
        let s: usize = slot(i, side);
        let count: usize = work.proofs[s].len();
        if count > 0 {
            assert(work.proofs@[s as int]@[count - 1] < work.records@.len());
            weights.set(work.proofs[s][count - 1], Some(one()));
        }
        assert(weights@ == row_weights(work.records@.len(), work.proofs@[s as int]@));
        self.apply_direction(model, objective, work, weights, None, Aim::Restrict(i, side), left)
    }

    fn weigh_column(&self, work: &Propagation, entries: &Entries, side: Side, Ghost(rows): Ghost<nat>, Ghost(columns): Ghost<nat>) -> (weights: Vec<Option<Real>>)
        requires
            self.wf(),
            work.fits(rows, columns),
            2 * rows <= usize::MAX,
            model::in_range(entries@, rows),
        ensures
            weights@ == self.column_weights(
                Seq::new(work.records@.len(), |k: int| None),
                entries@,
                side,
                work.proofs@,
                0,
            ),
            weights@.len() == work.records@.len(),
    {
        let mut weights: Vec<Option<Real>> = vec![None; work.records.len()];
        assert(weights@ =~= Seq::new(work.records@.len(), |k: int| None));
        let ghost goal = self.column_weights(weights@, entries@, side, work.proofs@, 0);
        let mut k: usize = 0;
        while k < entries.len()
            invariant
                k <= entries@.len(),
                self.wf(),
                work.fits(rows, columns),
                2 * rows <= usize::MAX,
                model::in_range(entries@, rows),
                weights@.len() == work.records@.len(),
                goal == self.column_weights(weights@, entries@, side, work.proofs@, k as int),
            decreases entries@.len() - k,
        {
            let (i, a): (usize, Real) = entries[k];
            assert(entries@[k as int].0 < rows);
            let s: usize = slot(i, used_bound(side, a));
            let count: usize = work.proofs[s].len();
            if count > 0 {
                assert(work.proofs@[s as int]@[count - 1] < work.records@.len());
                let last: usize = work.proofs[s][count - 1];
                let held = match weights[last] {
                    Some(w) => w,
                    None => zero(),
                };
                weights.set(last, Some(self.sum_of(held, a.abs())));
            }
            k = k + 1;
        }
        weights
    }

    /// Fix a column on a bound, if the sign of its reduced cost calls for it.
    pub fn conclude_column(
        &self,
        model: &mut Model,
        objective: &mut Objective,
        work: &Propagation,
        j: usize,
        gains: Gains,
        left: usize,
    ) -> (r: (Outcome, usize))
        requires
            self.wf(),
            old(model).wf(),
            old(objective).wf(),
            old(objective).c@.len() == old(model).bounds@.len(),
            work.fits(old(model).rows@.len(), old(model).bounds@.len()),
            2 * old(model).rows@.len() <= usize::MAX,
            j < old(model).bounds@.len(),
        ensures
            final(model).wf(),
            final(objective).wf(),
            final(objective).c@.len() == final(model).bounds@.len(),
            final(model).rows@.len() == old(model).rows@.len(),
            final(model).bounds@.len() == old(model).bounds@.len(),
            self.column_turn(
                (Standing { model: *old(model), objective: *old(objective), left }),
                (Standing { model: *final(model), objective: *final(objective), left: r.1 }),
                *work,
                j,
                gains,
                r.0,
            ),
    {
        if !model.linear_column(objective, j) {
            return (Outcome::Unchanged, left);
        }
        let entries = model.column_entries(j);
        let b = model.bounds[j];
        if entries.len() == 0 || b.equality() || !(b.lower.is_finite() || b.upper.is_finite()) {
            return (Outcome::Unchanged, left);
        }
        let c = objective.c[j];
        let fresh = self.activity_of(&entries, &work.y, None);
        assert(fresh == self.span(entries@, work.y@));
        let activity = match work.activity[j] {
            Some(stored) => if work.halt == Halt::Running {
                stored
            } else {
                fresh
            },
            None => fresh,
        };
        assert(activity == self.dual_activity(*model, *work, j as int));
        let low = b.lower.is_finite() && match activity.max.value() {
            Some(v) => self.separated(self.difference_of(c, v), zero(), gains.feasibility),
            None => false,
        };
        let high = b.upper.is_finite() && match activity.min.value() {
            Some(v) => self.separated(zero(), self.difference_of(c, v), gains.feasibility),
            None => false,
        };
        let side = if low {
            Side::Lower
        } else if high {
            Side::Upper
        } else {
            return (Outcome::Unchanged, left);
        };
        let weights = self.weigh_column(work, &entries, side, Ghost(model.rows@.len()), Ghost(model.bounds@.len()));
        self.apply_direction(
            model,
            objective,
            work,
            weights,
            Some((j, side)),
            Aim::Fix(j, side),
            left,
        )
    }

    /// The turns of a pass: every row, then every column, until a ray is found.
    pub open spec fn turn(
        &self,
        standings: Seq<Standing>,
        outcomes: Seq<Outcome>,
        work: Propagation,
        rows: nat,
        gains: Gains,
        k: int,
    ) -> bool {
        if k < rows {
            self.row_turn(
                standings[k],
                standings[k + 1],
                work,
                k as usize,
                gains,
                outcomes[k],
            )
        } else {
            self.column_turn(
                standings[k],
                standings[k + 1],
                work,
                (k - rows) as usize,
                gains,
                outcomes[k],
            )
        }
    }

    pub open spec fn turns(
        &self,
        standings: Seq<Standing>,
        outcomes: Seq<Outcome>,
        work: Propagation,
        rows: nat,
        gains: Gains,
    ) -> bool {
        &&& standings.len() == outcomes.len() + 1
        &&& forall|k: int|
            0 <= k < outcomes.len() ==> #[trigger] self.turn(
                standings,
                outcomes,
                work,
                rows,
                gains,
                k,
            )
        &&& forall|k: int| 0 <= k < outcomes.len() - 1 ==> !(#[trigger] outcomes[k] is Ray)
    }

    proof fn turn_joins(
        &self,
        standings: Seq<Standing>,
        outcomes: Seq<Outcome>,
        work: Propagation,
        rows: nat,
        gains: Gains,
        after: Standing,
        outcome: Outcome,
    )
        requires
            self.turns(standings, outcomes, work, rows, gains),
            outcomes.len() > 0 ==> !(outcomes.last() is Ray),
            self.turn(
                standings.push(after),
                outcomes.push(outcome),
                work,
                rows,
                gains,
                outcomes.len() as int,
            ),
        ensures
            self.turns(standings.push(after), outcomes.push(outcome), work, rows, gains),
    {
        let (s, o) = (standings.push(after), outcomes.push(outcome));
        assert forall|k: int| 0 <= k < o.len() implies #[trigger] self.turn(
            s,
            o,
            work,
            rows,
            gains,
            k,
        ) by {
            if k < outcomes.len() {
                assert(self.turn(standings, outcomes, work, rows, gains, k));
                assert(s[k] == standings[k] && s[k + 1] == standings[k + 1] && o[k]
                    == outcomes[k]);
            }
        }
        assert forall|k: int| 0 <= k < o.len() - 1 implies !(#[trigger] o[k] is Ray) by {
            assert(o[k] == outcomes[k]);
        }
    }

    /// Apply what a finished propagation concludes: the rows in turn, then the
    /// columns. The number of reductions, or a ray that proves the objective
    /// unbounded.
    pub fn conclude(
        &self,
        model: &mut Model,
        objective: &mut Objective,
        work: &Propagation,
        gains: Gains,
        budget: usize,
    ) -> (r: Result<usize, Entries>)
        requires
            self.wf(),
            old(model).wf(),
            old(objective).wf(),
            old(objective).c@.len() == old(model).bounds@.len(),
            work.fits(old(model).rows@.len(), old(model).bounds@.len()),
            2 * old(model).rows@.len() <= usize::MAX,
            old(model).rows@.len() + old(model).bounds@.len() <= usize::MAX,
        ensures
            final(model).wf(),
            final(objective).wf(),
            final(objective).c@.len() == final(model).bounds@.len(),
            exists|standings: Seq<Standing>, outcomes: Seq<Outcome>|
                {
                    &&& #[trigger] self.turns(
                        standings,
                        outcomes,
                        *work,
                        old(model).rows@.len(),
                        gains,
                    )
                    &&& standings[0] == (Standing {
                        model: *old(model),
                        objective: *old(objective),
                        left: budget,
                    })
                    &&& standings.last().model == *final(model)
                    &&& standings.last().objective == *final(objective)
                    &&& match r {
                        Ok(count) => {
                            &&& outcomes.len() == old(model).rows@.len() + old(model).bounds@.len()
                            &&& count == reduced(outcomes)
                            &&& forall|k: int|
                                0 <= k < outcomes.len() ==> !(#[trigger] outcomes[k] is Ray)
                        },
                        Err(ray) => outcomes.len() > 0 && outcomes.last() == Outcome::Ray(ray),
                    }
                },
    {
        let (m, n): (usize, usize) = (model.rows.len(), model.bounds.len());
        let ghost (rows, columns) = (model.rows@.len(), model.bounds@.len());
        let ghost mut standings: Seq<Standing> = seq![
            Standing { model: *model, objective: *objective, left: budget },
        ];
        let ghost mut outcomes: Seq<Outcome> = Seq::empty();
        let mut left: usize = budget;
        let mut count: usize = 0;
        let mut k: usize = 0;
        while k < m + n
            invariant
                k <= m + n <= usize::MAX,
                rows == m == old(model).rows@.len() == model.rows@.len(),
                columns == n == old(model).bounds@.len() == model.bounds@.len(),
                2 * rows <= usize::MAX,
                self.wf(),
                model.wf(),
                objective.wf(),
                objective.c@.len() == model.bounds@.len(),
                work.fits(rows, columns),
                outcomes.len() == k,
                count <= k,
                count == reduced(outcomes),
                self.turns(standings, outcomes, *work, rows, gains),
                standings[0] == (Standing {
                    model: *old(model),
                    objective: *old(objective),
                    left: budget,
                }),
                standings.last() == (Standing { model: *model, objective: *objective, left }),
                forall|i: int| 0 <= i < outcomes.len() ==> !(#[trigger] outcomes[i] is Ray),
            decreases m + n - k,
        {
            let (outcome, rest): (Outcome, usize) = if k < m {
                self.conclude_row(model, objective, work, k, gains, left)
            } else {
                self.conclude_column(model, objective, work, k - m, gains, left)
            };
            left = rest;
            proof {
                let after = Standing { model: *model, objective: *objective, left };
                let (s, o) = (standings.push(after), outcomes.push(outcome));
                assert(s[k as int] == standings.last());
                assert(self.turn(s, o, *work, rows, gains, k as int));
                self.turn_joins(standings, outcomes, *work, rows, gains, after, outcome);
                assert(o.drop_last() =~= outcomes);
                standings = s;
                outcomes = o;
            }
            match outcome {
                Outcome::Reduced => {
                    count = count + 1;
                },
                Outcome::Unchanged => {},
                Outcome::Ray(ray) => {
                    return Err(ray);
                },
            }
            k = k + 1;
        }
        Ok(count)
    }

    /// Some live linear column has a coefficient.
    pub open spec fn dual_rows(model: Model, objective: Objective) -> bool {
        exists|j: int|
            0 <= j < model.bounds@.len() && #[trigger] direction::linear_column(
                model,
                objective,
                j,
            ) && listing::line(model.a@, true, j).len() > 0
    }

    /// One pass: bounds on the multipliers, then what they conclude. The number
    /// of rows restricted and columns fixed, or a ray.
    pub fn dual_propagation(
        &self,
        model: &mut Model,
        objective: &mut Objective,
        limit: WorkLimit,
        gains: Gains,
    ) -> (r: Result<usize, Entries>)
        requires
            self.wf(),
            old(model).wf(),
            old(objective).wf(),
            old(objective).c@.len() == old(model).bounds@.len(),
            2 * old(model).rows@.len() <= usize::MAX,
            old(model).rows@.len() + old(model).bounds@.len() <= usize::MAX,
        ensures
            self.dual_propagation_done(
                passes::work(*old(model), *old(objective)),
                passes::work(*final(model), *final(objective)),
                limit,
                gains,
                r,
            ),
    {
        let mut any = false;
        let mut j: usize = 0;
        while j < model.bounds.len() && !any
            invariant
                j <= model.bounds@.len(),
                *model == *old(model),
                *objective == *old(objective),
                model.wf(),
                objective.wf(),
                objective.c@.len() == model.bounds@.len(),
                any ==> Self::dual_rows(*model, *objective),
                !any ==> forall|i: int|
                    0 <= i < j && #[trigger] direction::linear_column(*model, *objective, i)
                        ==> listing::line(model.a@, true, i).len() == 0,
            decreases model.bounds@.len() - j,
        {
            if model.linear_column(objective, j) {
                let entries = model.column_entries(j);
                if entries.len() > 0 {
                    any = true;
                }
            }
            j = j + 1;
        }
        if !any {
            return Ok(0);
        }
        let stored: usize = model.a.nnz();
        let four: usize = if stored > usize::MAX / 4 {
            usize::MAX
        } else {
            4 * stored
        };
        let budget: usize = limit.resolve(four);
        let work = self.propagate_multipliers(model, objective, budget, gains);
        assert(self.propagated(*model, *objective, work, budget, gains));
        if work.halt == Halt::Inconsistent {
            return Ok(0);
        }
        self.conclude(model, objective, &work, gains, budget)
    }

    /// A propagation that ran to its end.
    pub open spec fn propagated(
        &self,
        model: Model,
        objective: Objective,
        work: Propagation,
        budget: usize,
        gains: Gains,
    ) -> bool {
        exists|stages: Seq<(multipliers::Holdings, Seq<usize>)>|
            {
                &&& #[trigger] self.stages_run(model, objective, stages, gains)
                &&& stages.len() > 0
                &&& stages[0] == (
                    multipliers::unpropagated(model, budget),
                    Self::eligible(model, objective, model.bounds@.len()),
                )
                &&& stages.last().0 == work@
                &&& stages.last().1.len() == 0
            }
    }
}

/// Four visits for each stored coefficient.
pub open spec fn fourfold(stored: nat) -> usize {
    if 4 * stored > usize::MAX {
        usize::MAX
    } else {
        (4 * stored) as usize
    }
}

/// How many conclusions changed the model.
pub open spec fn reduced(outcomes: Seq<Outcome>) -> nat
    decreases outcomes.len(),
{
    if outcomes.len() == 0 {
        0
    } else {
        reduced(outcomes.drop_last()) + if outcomes.last() is Reduced {
            1nat
        } else {
            0
        }
    }
}

impl<
    P: Fn(Real, Real) -> Real,
    T: Fn(Real, Real) -> Real,
    D: Fn(Real, Real) -> Real,
    H: Fn(Real, Real) -> Real,
> Arithmetic<P, T, D, H> {
    /// What a pass over the multipliers does and reports.
    pub open spec fn dual_propagation_done(
        &self,
        before: Work,
        after: Work,
        limit: WorkLimit,
        gains: Gains,
        r: Result<usize, Entries>,
    ) -> bool {
        &&& after.model.wf()
        &&& after.objective.wf()
        &&& after.objective.c@.len() == after.model.bounds@.len()
        &&& !Self::dual_rows(before.model, before.objective) ==> r == Ok::<usize, Entries>(0)
                && after.model == before.model && after.objective == before.objective
        &&& Self::dual_rows(before.model, before.objective) ==> exists|
                work: Propagation,
                budget: usize,
            |
                {
                    &&& budget == limit.allowance(fourfold(before.model.a@.dom().len()))
                    &&& #[trigger] self.propagated(
                        before.model,
                        before.objective,
                        work,
                        budget,
                        gains,
                    )
                    &&& work.halt is Inconsistent ==> r == Ok::<usize, Entries>(0) && after.model
                        == before.model && after.objective == before.objective
                    &&& !(work.halt is Inconsistent) ==> exists|
                        standings: Seq<Standing>,
                        outcomes: Seq<Outcome>,
                    |
                        {
                            &&& #[trigger] self.turns(
                                standings,
                                outcomes,
                                work,
                                before.model.rows@.len(),
                                gains,
                            )
                            &&& standings[0] == (Standing {
                                model: before.model,
                                objective: before.objective,
                                left: budget,
                            })
                            &&& standings.last().model == after.model
                            &&& standings.last().objective == after.objective
                            &&& match r {
                                Ok(count) => {
                                    &&& outcomes.len() == before.model.rows@.len() + before.model.bounds@.len()
                                    &&& count == reduced(outcomes)
                                },
                                Err(ray) => outcomes.len() > 0 && outcomes.last()
                                    == Outcome::Ray(ray),
                            }
                        }
                }
    }
}

} // verus!
