//! Bounds that rows imply for their variables.

use crate::activity::{self, Activity};
use crate::arithmetic::Arithmetic;
use crate::bounds::{Bounds, RowDomain, Side};
use crate::linked;
use crate::listing;
use crate::model::{self, Model};
use crate::multipliers::Gains;
use crate::number::{infinity, minus_one, neg_infinity, one, zero, Real};
use crate::tape::Rule;
use crate::tape;
use vstd::prelude::*;

verus! {

/// When an implied bound is taken.
#[derive(Clone, Copy, Debug, PartialEq, Eq, Structural)]
pub struct BoundLimits {
    pub gains: Gains,
    /// Propagation ignores bounds of this magnitude.
    pub huge_bound: Real,
}

/// What becomes of an implied bound.
#[derive(Clone, Copy, Debug, PartialEq, Eq, Structural)]
pub enum Decision {
    Keep,
    Tighten,
    /// The bound lies beyond the other side.
    Conflict,
}

/// An interval with one side replaced.
pub open spec fn with_side(b: Bounds, side: Side, value: Real) -> Bounds {
    match side {
        Side::Lower => Bounds { lower: value, ..b },
        Side::Upper => Bounds { upper: value, ..b },
    }
}

pub open spec fn other_side(b: Bounds, side: Side) -> Real {
    match side {
        Side::Lower => b.upper,
        Side::Upper => b.lower,
    }
}

/// The intervals that a row leaves, how many sides moved, and the multiplier of
/// the row that proves a conflict.
pub ghost struct Narrowed {
    pub bounds: Seq<Bounds>,
    pub count: nat,
    pub conflict: Option<Real>,
}

/// What a row does.
#[derive(Clone, Copy, Debug, PartialEq, Eq, Structural)]
pub enum RowOutcome {
    /// So many sides moved.
    Tightened(usize),
    /// The row with this multiplier has no feasible point.
    Infeasible(Real),
}

/// The tape has grown by the records of bounds that row `i` proved.
pub open spec fn proved_by(before: Seq<Rule>, after: Seq<Rule>, i: usize, count: nat) -> bool {
    &&& after.len() == before.len() + count
    &&& after.take(before.len() as int) == before
    &&& forall|k: int|
        before.len() <= k < after.len() ==> (#[trigger] after[k] matches Rule::TightenedBound {
            equation,
            ..
        } && equation.row == i)
}

impl<
    P: Fn(Real, Real) -> Real,
    T: Fn(Real, Real) -> Real,
    D: Fn(Real, Real) -> Real,
    H: Fn(Real, Real) -> Real,
> Arithmetic<P, T, D, H> {
    /// What becomes of an implied bound.
    pub open spec fn decided(
        &self,
        old: Bounds,
        side: Side,
        value: Real,
        limits: BoundLimits,
        propagation: bool,
    ) -> Decision {
        let new = with_side(old, side, value);
        let held = side.of(old);
        let gain = match side {
            Side::Lower => self.difference(value, held),
            Side::Upper => self.difference(held, value),
        };
        let least = self.product(
            limits.gains.minimum_gain_factor,
            limits.gains.feasibility,
        ).larger(self.product(limits.gains.minimum_relative_gain, held.absolute()));
        if !value.finite() || propagation && limits.huge_bound.le(value.absolute()) {
            Decision::Keep
        } else if new.upper.lt(new.lower) {
            if self.apart(new.lower, new.upper, limits.gains.feasibility) {
                Decision::Conflict
            } else {
                Decision::Keep
            }
        } else if propagation && held.finite() && !value.same(other_side(old, side)) && gain.le(
            least,
        ) {
            Decision::Keep
        } else if match side {
            Side::Lower => held.lt(value),
            Side::Upper => value.lt(held),
        } {
            Decision::Tighten
        } else {
            Decision::Keep
        }
    }

    pub fn implied_bound(
        &self,
        old: Bounds,
        side: Side,
        value: Real,
        limits: BoundLimits,
        propagation: bool,
    ) -> (decision: Decision)
        requires
            self.wf(),
        ensures
            decision == self.decided(old, side, value, limits, propagation),
    {
        if !value.is_finite() || propagation && limits.huge_bound.at_most(value.abs()) {
            return Decision::Keep;
        }
        let (held, other, lower, upper): (Real, Real, Real, Real) = match side {
            Side::Lower => (old.lower, old.upper, value, old.upper),
            Side::Upper => (old.upper, old.lower, old.lower, value),
        };
        if upper.less(lower) {
            return if self.separated(lower, upper, limits.gains.feasibility) {
                Decision::Conflict
            } else {
                Decision::Keep
            };
        }
        if propagation && held.is_finite() && !value.equals(other) {
            let gain = match side {
                Side::Lower => self.difference_of(value, held),
                Side::Upper => self.difference_of(held, value),
            };
            let least = self.product_of(
                limits.gains.minimum_gain_factor,
                limits.gains.feasibility,
            ).max(self.product_of(limits.gains.minimum_relative_gain, held.abs()));
            if gain.at_most(least) {
                return Decision::Keep;
            }
        }
        let better = match side {
            Side::Lower => held.less(value),
            Side::Upper => value.less(held),
        };
        if better {
            Decision::Tighten
        } else {
            Decision::Keep
        }
    }

    /// One implied bound is applied to the interval of variable `j`, whose
    /// coefficient is `a`.
    pub open spec fn narrowed(
        &self,
        n: Narrowed,
        j: usize,
        a: Real,
        side: Side,
        value: Option<Real>,
        limits: BoundLimits,
        propagation: bool,
    ) -> Narrowed {
        match value {
            Some(v) if n.conflict is None => match self.decided(
                n.bounds[j as int],
                side,
                v,
                limits,
                propagation,
            ) {
                Decision::Keep => n,
                Decision::Tighten => Narrowed {
                    bounds: n.bounds.update(j as int, with_side(n.bounds[j as int], side, v)),
                    count: n.count + 1,
                    ..n
                },
                Decision::Conflict => Narrowed {
                    conflict: Some(
                        match side {
                            Side::Lower => a.unit(),
                            Side::Upper => a.unit().opposite(),
                        },
                    ),
                    ..n
                },
            },
            _ => n,
        }
    }

    /// The bounds that a row with these sides implies, from place `k` of its
    /// entries on.
    pub open spec fn row_narrowed(
        &self,
        n: Narrowed,
        entries: Seq<(usize, Real)>,
        rhs: Bounds,
        limits: BoundLimits,
        k: int,
    ) -> Narrowed
        decreases entries.len() - k,
    {
        if k >= entries.len() || n.conflict is Some {
            n
        } else {
            let (j, a) = entries[k];
            let activity = self.span(entries, n.bounds);
            let low = self.implied_from(activity, entries, n.bounds, j, a, rhs, true);
            let high = self.implied_from(activity, entries, n.bounds, j, a, rhs, false);
            let (first, second) = if zero().lt(a) {
                (Side::Lower, Side::Upper)
            } else {
                (Side::Upper, Side::Lower)
            };
            self.row_narrowed(
                self.narrowed(
                    self.narrowed(n, j, a, first, low, limits, true),
                    j,
                    a,
                    second,
                    high,
                    limits,
                    true,
                ),
                entries,
                rhs,
                limits,
                k + 1,
            )
        }
    }

    pub(crate) fn narrow(
        &self,
        model: &mut Model,
        i: usize,
        j: usize,
        a: Real,
        side: Side,
        value: Option<Real>,
        limits: BoundLimits,
        propagation: bool,
        eager: bool,
        Ghost(count): Ghost<nat>,
    ) -> (r: (bool, Option<Real>))
        requires
            self.wf(),
            old(model).wf(),
            i < old(model).rows@.len(),
            old(model).rows@[i as int] is Linear,
            j < old(model).bounds@.len(),
            old(model).a@.contains_key((i as int, j as int)),
            old(model).revision < usize::MAX,
        ensures
            final(model).wf(),
            final(model).a == old(model).a,
            final(model).rows@ == old(model).rows@,
            final(model).alive@ == old(model).alive@,
            final(model).bounds@.len() == old(model).bounds@.len(),
            !r.0 ==> *final(model) == *old(model),
            r.0 ==> final(model).revision == old(model).revision + 1,
            (Narrowed {
                bounds: final(model).bounds@,
                count: count + if r.0 {
                    1nat
                } else {
                    0
                },
                conflict: r.1,
            }) == self.narrowed(
                (Narrowed { bounds: old(model).bounds@, count, conflict: None }),
                j,
                a,
                side,
                value,
                limits,
                propagation,
            ),
            r.1 is Some ==> !r.0,
            proved_by(
                old(model).tape@,
                final(model).tape@,
                i,
                if r.0 {
                    1nat
                } else {
                    0
                },
            ),
    {
        let ghost tape = model.tape@;
        assert(tape.take(tape.len() as int) =~= tape);
        match value {
            None => (false, None),
            Some(v) => match self.implied_bound(model.bounds[j], side, v, limits, propagation) {
                Decision::Keep => (false, None),
                Decision::Conflict => (
                    false,
                    Some(
                        match side {
                            Side::Lower => a.signum(),
                            Side::Upper => a.signum().neg(),
                        },
                    ),
                ),
                Decision::Tighten => {
                    let equation = match model.equation(i) {
                        Some(equation) => equation,
                        None => {
                            return (false, None);
                        },
                    };
                    proof {
                        model.a.stored_positions();
                        tape::line_fits(
                            equation,
                            model.a@,
                            j,
                            model.bounds@.len(),
                            model.rows@.len(),
                        );
                    }
                    let moved = model.tighten_bound(j, side, v, equation, eager);
                    assert(model.tape@.take(tape.len() as int) =~= tape);
                    (moved, None)
                },
            },
        }
    }

    /// The sides that the activity does not already keep.
    pub open spec fn sides_needed(activity: Activity, b: Bounds) -> Bounds {
        Bounds {
            lower: if b.lower.finite() && (activity.min.finite_value() matches Some(v)
                && b.lower.le(v)) {
                neg_infinity()
            } else {
                b.lower
            },
            upper: if b.upper.finite() && (activity.max.finite_value() matches Some(v) && v.le(
                b.upper,
            )) {
                infinity()
            } else {
                b.upper
            },
        }
    }

    /// What one row does in a round of propagation.
    pub open spec fn propagation_turn(
        &self,
        before: Model,
        after: Model,
        i: usize,
        limits: BoundLimits,
        outcome: RowOutcome,
    ) -> bool {
        let entries = listing::line(before.a@, false, i as int);
        let nothing = after == before && outcome == RowOutcome::Tightened(0);
        match before.rows@[i as int] {
            RowDomain::Linear(b) if entries.len() > 1 => {
                let activity = self.span(entries, before.bounds@);
                let feasibility = limits.gains.feasibility;
                let needed = Self::sides_needed(activity, b);
                if b.upper.finite() && (activity.min.finite_value() matches Some(v) && self.apart(
                    v,
                    b.upper,
                    feasibility,
                )) {
                    after == before && outcome == RowOutcome::Infeasible(minus_one())
                } else if b.lower.finite() && (activity.max.finite_value() matches Some(v)
                    && self.apart(b.lower, v, feasibility)) {
                    after == before && outcome == RowOutcome::Infeasible(one())
                } else if crate::trees::unbounded(needed) {
                    &&& outcome == RowOutcome::Tightened(0)
                    &&& linked::row_replaced(after.a@, before.a@, i as int, Seq::empty())
                    &&& after.rows@ == before.rows@.update(i as int, RowDomain::Deleted)
                    &&& after.bounds@ == before.bounds@
                    &&& after.tape@ == before.tape@.push(Rule::DeletedRow(i))
                } else {
                    &&& after.a == before.a
                    &&& after.rows@ == before.rows@.update(i as int, RowDomain::Linear(needed))
                    &&& {
                        let n = if Self::hopeless(activity, needed) {
                            Narrowed { bounds: before.bounds@, count: 0, conflict: None }
                        } else {
                            self.row_narrowed(
                                Narrowed { bounds: before.bounds@, count: 0, conflict: None },
                                entries,
                                needed,
                                limits,
                                0,
                            )
                        };
                        &&& after.bounds@ == n.bounds
                        &&& proved_by(before.tape@, after.tape@, i, n.count)
                        &&& match n.conflict {
                            Some(multiplier) => outcome == RowOutcome::Infeasible(multiplier),
                            None => outcome matches RowOutcome::Tightened(count) && count
                                == n.count,
                        }
                    }
                }
            },
            _ => nothing,
        }
    }

    /// Propagate one row: drop the sides that its activity keeps anyway, and tighten
    /// the bounds of its variables.
    pub fn propagate_row(
        &self,
        model: &mut Model,
        i: usize,
        limits: BoundLimits,
        eager: bool,
    ) -> (outcome: RowOutcome)
        requires
            self.wf(),
            old(model).wf(),
            i < old(model).rows@.len(),
            old(model).revision + 2 * listing::line(old(model).a@, false, i as int).len() + 1
                <= usize::MAX,
        ensures
            final(model).wf(),
            final(model).rows@.len() == old(model).rows@.len(),
            final(model).bounds@.len() == old(model).bounds@.len(),
            self.propagation_turn(*old(model), *final(model), i, limits, outcome),
    {
        let ghost start = *model;
        let b = match model.rows[i] {
            RowDomain::Linear(b) => b,
            _ => {
                return RowOutcome::Tightened(0);
            },
        };
        let entries = model.row_entries(i);
        assert(entries.len() == entries@.len());
        if entries.len() <= 1 {
            return RowOutcome::Tightened(0);
        }
        assert forall|k: int| 0 <= k < entries@.len() implies (#[trigger] entries@[k]).0
            < model.bounds@.len() by {}
        let activity = self.activity_of(&entries, &model.bounds, None);
        assert(activity == self.span(entries@, model.bounds@));
        let feasibility = limits.gains.feasibility;
        let (low, high): (Option<Real>, Option<Real>) = (
            activity.min.value(),
            activity.max.value(),
        );
        let over = b.upper.is_finite() && match low {
            Some(v) => self.separated(v, b.upper, feasibility),
            None => false,
        };
        if over {
            return RowOutcome::Infeasible(minus_one());
        }
        let under = b.lower.is_finite() && match high {
            Some(v) => self.separated(b.lower, v, feasibility),
            None => false,
        };
        if under {
            return RowOutcome::Infeasible(one());
        }
        let keeps_lower = b.lower.is_finite() && match low {
            Some(v) => b.lower.at_most(v),
            None => false,
        };
        let keeps_upper = b.upper.is_finite() && match high {
            Some(v) => v.at_most(b.upper),
            None => false,
        };
        let needed = Bounds {
            lower: if keeps_lower {
                neg_infinity()
            } else {
                b.lower
            },
            upper: if keeps_upper {
                infinity()
            } else {
                b.upper
            },
        };
        assert(needed == Self::sides_needed(activity, b));
        if needed.lower.equals(neg_infinity()) && needed.upper.equals(infinity()) {
            proof {
                model.a.stored_count_fits();
            }
            model.delete_row(i);
            return RowOutcome::Tightened(0);
        }
        if keeps_lower || keeps_upper {
            model.relax_row(i, needed);
        }
        proof {
            assert(model.rows@ =~= start.rows@.update(i as int, RowDomain::Linear(needed)));
            assert(model.tape@.take(start.tape@.len() as int) =~= start.tape@);
        }
        if (!needed.lower.is_finite() || activity.max.infinite >= 2) && (
        !needed.upper.is_finite() || activity.min.infinite >= 2) {
            return RowOutcome::Tightened(0);
        }
        let ghost begin = Narrowed { bounds: start.bounds@, count: 0, conflict: None };
        let mut count: usize = 0;
        let mut k: usize = 0;
        while k < entries.len()
            invariant
                k <= entries@.len() <= usize::MAX,
                self.wf(),
                model.wf(),
                start.wf(),
                i < start.rows@.len(),
                start.rows@[i as int] == RowDomain::Linear(b),
                entries@ == listing::line(start.a@, false, i as int),
                linked::lists_line(entries@, start.a@, false, i as int),
                entries@.len() > 1,
                model::in_range(entries@, model.bounds@.len()),
                model.a == start.a,
                model.rows@ == start.rows@.update(i as int, RowDomain::Linear(needed)),
                model.bounds@.len() == start.bounds@.len(),
                start.revision + 2 * entries@.len() + 1 <= usize::MAX,
                model.revision <= start.revision + 1 + 2 * k,
                count <= 2 * k,
                activity == self.span(entries@, start.bounds@),
                needed == Self::sides_needed(activity, b),
                !crate::trees::unbounded(needed),
                !Self::hopeless(activity, needed),
                feasibility == limits.gains.feasibility,
                !(b.upper.finite() && (activity.min.finite_value() matches Some(v) && self.apart(
                    v,
                    b.upper,
                    feasibility,
                ))),
                !(b.lower.finite() && (activity.max.finite_value() matches Some(v) && self.apart(
                    b.lower,
                    v,
                    feasibility,
                ))),
                proved_by(start.tape@, model.tape@, i, count as nat),
                begin == (Narrowed { bounds: start.bounds@, count: 0, conflict: None }),
                start == *old(model),
                self.row_narrowed(begin, entries@, needed, limits, 0) == self.row_narrowed(
                    (Narrowed { bounds: model.bounds@, count: count as nat, conflict: None }),
                    entries@,
                    needed,
                    limits,
                    k as int,
                ),
            decreases entries@.len() - k,
        {
            let (j, a): (usize, Real) = entries[k];
            assert(entries@[k as int].0 < model.bounds@.len());
            assert(model.a@.contains_key(linked::place(false, i as int, j as int)));
            assert(model.a@.contains_key((i as int, j as int)));
            let act = self.activity_of(&entries, &model.bounds, None);
            assert(act == self.span(entries@, model.bounds@));
            let low = self.implied_from_side(act, &entries, &model.bounds, j, a, needed, true);
            let high = self.implied_from_side(act, &entries, &model.bounds, j, a, needed, false);
            let up = zero().less(a);
            let (first, second): (Side, Side) = if up {
                (Side::Lower, Side::Upper)
            } else {
                (Side::Upper, Side::Lower)
            };
            let ghost (t0, c0) = (model.tape@, count as nat);
            assert(entries.len() == entries@.len());
            let (moved, conflict): (bool, Option<Real>) = self.narrow(
                model,
                i,
                j,
                a,
                first,
                low,
                limits,
                true,
                eager,
                Ghost(count as nat),
            );
            let ghost t1 = model.tape@;
            proof {
                tapes_join(start.tape@, t0, t1, i, c0, if moved { 1nat } else { 0 });
            }
            let once: u128 = if moved {
                1
            } else {
                0
            };
            match conflict {
                Some(multiplier) => {
                    proof {
                        let n = Narrowed {
                            bounds: model.bounds@,
                            count: count as nat,
                            conflict,
                        };
                        assert(self.narrowed(n, j, a, second, high, limits, true) == n);
                        assert(self.row_narrowed(n, entries@, needed, limits, k + 1) == n);
                    }
                    return RowOutcome::Infeasible(multiplier);
                },
                None => {},
            }
            let (again, other): (bool, Option<Real>) = self.narrow(
                model,
                i,
                j,
                a,
                second,
                high,
                limits,
                true,
                eager,
                Ghost((count + if moved { 1int } else { 0 }) as nat),
            );
            proof {
                tapes_join(
                    start.tape@,
                    t1,
                    model.tape@,
                    i,
                    c0 + if moved { 1nat } else { 0 },
                    if again { 1nat } else { 0 },
                );
            }
            let twice: u128 = if again {
                once + 1
            } else {
                once
            };
            match other {
                Some(multiplier) => {
                    proof {
                        let n = Narrowed {
                            bounds: model.bounds@,
                            count: (count + once) as nat,
                            conflict: other,
                        };
                        assert(self.row_narrowed(n, entries@, needed, limits, k + 1) == n);
                    }
                    return RowOutcome::Infeasible(multiplier);
                },
                None => {},
            }
            count = count + twice as usize;
            k = k + 1;
        }
        RowOutcome::Tightened(count)
    }

    /// The turns of a round.
    pub open spec fn propagation_round(
        &self,
        models: Seq<Model>,
        outcomes: Seq<RowOutcome>,
        round: Seq<usize>,
        limits: BoundLimits,
    ) -> bool {
        &&& models.len() == outcomes.len() + 1
        &&& outcomes.len() <= round.len()
        &&& forall|k: int|
            0 <= k < outcomes.len() ==> #[trigger] self.propagation_turn_at(
                models,
                outcomes,
                round,
                limits,
                k,
            )
    }

    pub open spec fn propagation_turn_at(
        &self,
        models: Seq<Model>,
        outcomes: Seq<RowOutcome>,
        round: Seq<usize>,
        limits: BoundLimits,
        k: int,
    ) -> bool {
        self.propagation_turn(models[k], models[k + 1], round[k], limits, outcomes[k])
    }

    /// One round of propagation over the listed rows. The number of sides that
    /// moved, or a row with the multiplier that proves it infeasible. The round
    /// ends early where the counter of changes is nearly full.
    pub fn propagate_bounds(
        &self,
        model: &mut Model,
        round: &Vec<usize>,
        limits: BoundLimits,
        eager: bool,
    ) -> (r: Result<u128, (usize, Real)>)
        requires
            self.wf(),
            old(model).wf(),
            forall|k: int| 0 <= k < round@.len() ==> #[trigger] round@[k] < old(model).rows@.len(),
        ensures
            self.propagate_bounds_done(
                *old(model),
                *final(model),
                *round,
                limits,
                eager,
                r,
            ),
    {
        let ghost mut models: Seq<Model> = seq![*model];
        let ghost mut outcomes: Seq<RowOutcome> = Seq::empty();
        let mut count: u128 = 0;
        let mut k: usize = 0;
        assert(round.len() == round@.len());
        while k < round.len()
            invariant
                k <= round@.len() <= usize::MAX,
                self.wf(),
                model.wf(),
                model.rows@.len() == old(model).rows@.len(),
                model.bounds@.len() == old(model).bounds@.len(),
                forall|k: int|
                    0 <= k < round@.len() ==> #[trigger] round@[k] < old(model).rows@.len(),
                outcomes.len() == k,
                count == moved(outcomes),
                count <= k * (usize::MAX as u128),
                self.propagation_round(models, outcomes, round@, limits),
                models[0] == *old(model),
                models.last() == *model,
            decreases round@.len() - k,
        {
            let i: usize = round[k];
            assert(round@[k as int] < model.rows@.len());
            let length: usize = model.row_entries(i).len();
            if model.revision as u128 + 2 * (length as u128) + 1 > usize::MAX as u128 {
                return Ok(count);
            }
            let outcome = self.propagate_row(model, i, limits, eager);
            proof {
                let more = outcomes.push(outcome);
                let later = models.push(*model);
                assert(more.drop_last() =~= outcomes);
                assert forall|t: int|
                    0 <= t < more.len() implies #[trigger] self.propagation_turn_at(
                    later,
                    more,
                    round@,
                    limits,
                    t,
                ) by {
                    if t < outcomes.len() {
                        assert(self.propagation_turn_at(models, outcomes, round@, limits, t));
                        assert(later[t] == models[t] && later[t + 1] == models[t + 1] && more[t]
                            == outcomes[t]);
                    } else {
                        assert(later[t] == models.last());
                    }
                }
                assert(self.propagation_round(later, more, round@, limits));
                outcomes = more;
                models = later;
                assert((k + 1) * (usize::MAX as u128) == k * (usize::MAX as u128) + usize::MAX)
                    by (nonlinear_arith);
                assert((k + 1) * (usize::MAX as u128) <= u128::MAX) by (nonlinear_arith)
                    requires
                        k + 1 <= usize::MAX,
                ;
            }
            match outcome {
                RowOutcome::Tightened(n) => {
                    count = count + n as u128;
                },
                RowOutcome::Infeasible(multiplier) => {
                    return Err((i, multiplier));
                },
            }
            k = k + 1;
        }
        Ok(count)
    }
}

/// How many sides moved in all.
pub open spec fn moved(outcomes: Seq<RowOutcome>) -> nat
    decreases outcomes.len(),
{
    if outcomes.len() == 0 {
        0
    } else {
        moved(outcomes.drop_last()) + match outcomes.last() {
            RowOutcome::Tightened(n) => n as nat,
            RowOutcome::Infeasible(_) => 0,
        }
    }
}

pub(crate) proof fn tapes_join(
    first: Seq<Rule>,
    second: Seq<Rule>,
    third: Seq<Rule>,
    i: usize,
    m: nat,
    n: nat,
)
    requires
        proved_by(first, second, i, m),
        proved_by(second, third, i, n),
    ensures
        proved_by(first, third, i, m + n),
{
    assert(third.take(first.len() as int) =~= first) by {
        assert forall|k: int| 0 <= k < first.len() implies third[k] == first[k] by {
            assert(second.take(first.len() as int)[k] == first[k]);
            assert(third.take(second.len() as int)[k] == second[k]);
        }
    }
    assert forall|k: int| first.len() <= k < third.len() implies (
    #[trigger] third[k] matches Rule::TightenedBound { equation, .. } && equation.row == i) by {
        if k < second.len() {
            assert(third.take(second.len() as int)[k] == second[k]);
            assert(second[k] matches Rule::TightenedBound { equation, .. } && equation.row == i);
        }
    }
}

impl<
    P: Fn(Real, Real) -> Real,
    T: Fn(Real, Real) -> Real,
    D: Fn(Real, Real) -> Real,
    H: Fn(Real, Real) -> Real,
> Arithmetic<P, T, D, H> {
    /// What a round of propagation does and reports.
    pub open spec fn propagate_bounds_done(
        &self,
        before: Model,
        after: Model,
        round: Vec<usize>,
        limits: BoundLimits,
        eager: bool,
        r: Result<u128, (usize, Real)>,
    ) -> bool {
        &&& after.wf()
        &&& after.bounds@.len() == before.bounds@.len()
        &&& exists|models: Seq<Model>, outcomes: Seq<RowOutcome>|
                {
                    &&& #[trigger] self.propagation_round(models, outcomes, round@, limits)
                    &&& models[0] == before
                    &&& models.last() == after
                    &&& match r {
                        Ok(count) => count == moved(outcomes) && (outcomes.len() == round@.len()
                            || after.revision + 2 * listing::line(
                            after.a@,
                            false,
                            round@[outcomes.len() as int] as int,
                        ).len() + 1 > usize::MAX),
                        Err((i, multiplier)) => outcomes.len() > 0 && outcomes.last()
                            == RowOutcome::Infeasible(multiplier) && i == round@[outcomes.len()
                            - 1],
                    }
                }
    }
}

} // verus!
