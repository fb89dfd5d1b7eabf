//! Bounds on row multipliers, propagated through the dual rows.
//!
//! The reduced cost of a linear column has a sign that its finite bounds fix.
//! That confines the sum of its coefficients times the multipliers of its rows
//! to an interval, from which each multiplier inherits a bound.

use crate::activity::{self, Activity, Extreme};
use crate::arithmetic::Arithmetic;
use crate::bounds::{Bounds, RowDomain, Side};
use crate::direction::{self, slot, Record};
use crate::listing;
use crate::model::{self, Model};
use crate::number::{infinity, neg_infinity, one, zero, Real};
use crate::objective::Objective;
use crate::queues::{self, Worklist};
use vstd::prelude::*;

verus! {

/// How far values must lie apart, and how much a bound must gain.
#[derive(Clone, Copy, Debug, PartialEq, Eq, Structural)]
pub struct Gains {
    pub feasibility: Real,
    pub minimum_gain_factor: Real,
    pub minimum_relative_gain: Real,
}

/// The interval of a row's multiplier.
pub open spec fn multiplier_interval(b: Bounds) -> Bounds {
    Bounds {
        lower: if b.lower.finite() && !b.upper.finite() {
            zero()
        } else {
            neg_infinity()
        },
        upper: if b.upper.finite() && !b.lower.finite() {
            zero()
        } else {
            infinity()
        },
    }
}

/// Allowed interval of a linear row's multiplier from its finite sides.
pub fn multiplier_range(b: Bounds) -> (r: Bounds)
    ensures
        r == multiplier_interval(b),
{
    Bounds {
        lower: if b.lower.is_finite() && !b.upper.is_finite() {
            zero()
        } else {
            neg_infinity()
        },
        upper: if b.upper.is_finite() && !b.lower.is_finite() {
            zero()
        } else {
            infinity()
        },
    }
}

/// The interval of a dual row.
pub open spec fn dual_interval(b: Bounds, c: Real) -> Option<Bounds> {
    if b.lower.finite() && b.upper.finite() {
        None
    } else {
        Some(
            Bounds {
                lower: if b.lower.finite() {
                    neg_infinity()
                } else {
                    c
                },
                upper: if b.upper.finite() {
                    infinity()
                } else {
                    c
                },
            },
        )
    }
}

/// The interval that the sign of the reduced cost implies for the dual row of a
/// column with these bounds and this cost. Two finite bounds imply none.
pub fn dual_row_range(b: Bounds, c: Real) -> (r: Option<Bounds>)
    ensures
        r == dual_interval(b, c),
{
    let (low, high): (bool, bool) = (b.lower.is_finite(), b.upper.is_finite());
    if low && high {
        None
    } else {
        Some(
            Bounds {
                lower: if low {
                    neg_infinity()
                } else {
                    c
                },
                upper: if high {
                    infinity()
                } else {
                    c
                },
            },
        )
    }
}

/// What a new bound does to an interval.
#[derive(Clone, Copy, Debug, PartialEq, Eq, Structural)]
pub enum Tightening {
    /// The bound lies beyond the other side.
    Contradiction,
    /// Not better, or not by enough.
    Kept,
    Changed(Bounds),
}

/// How a propagation stands.
#[derive(Clone, Copy, Debug, PartialEq, Eq, Structural)]
pub enum Halt {
    Running,
    /// The multipliers have no value.
    Inconsistent,
    /// The allowance is used up.
    Limited,
}

/// The bounds so far, where each came from, and what is left to do.
pub struct Propagation {
    pub y: Vec<Bounds>,
    pub records: Vec<Record>,
    /// For each row and side, the records that improved it, oldest first.
    pub proofs: Vec<Vec<usize>>,
    /// Rows that tightened in the current round.
    pub rows: Worklist,
    /// The activity of a column's dual row at its latest visit.
    pub activity: Vec<Option<Activity>>,
    pub left: usize,
    pub halt: Halt,
}

pub ghost struct Holdings {
    pub y: Seq<Bounds>,
    pub records: Seq<Record>,
    pub proofs: Seq<Seq<usize>>,
    pub rows: Seq<usize>,
    pub activity: Seq<Option<Activity>>,
    pub left: usize,
    pub halt: Halt,
}

pub open spec fn lists(proofs: Seq<Vec<usize>>) -> Seq<Seq<usize>> {
    Seq::new(proofs.len(), |s: int| proofs[s]@)
}

impl View for Propagation {
    type V = Holdings;

    open spec fn view(&self) -> Holdings {
        Holdings {
            y: self.y@,
            records: self.records@,
            proofs: lists(self.proofs@),
            rows: self.rows@,
            activity: self.activity@,
            left: self.left,
            halt: self.halt,
        }
    }
}

impl Propagation {
    /// The parts fit a model with this many rows and columns.
    pub open spec fn fits(&self, rows: nat, columns: nat) -> bool {
        &&& self.y@.len() == rows
        &&& self.activity@.len() == columns
        &&& self.rows.wf()
        &&& direction::places_fit(self.rows@, rows)
        &&& direction::records_fit(self.records@, rows, columns)
        &&& direction::proofs_fit(self.proofs@, rows, self.records@.len())
    }
}

/// A record of a tightening joins the rest.
pub open spec fn recorded(h: Holdings, b: Bounds, record: Record, side: Side) -> Holdings {
    let s = direction::place_of(record.row as int, side);
    Holdings {
        y: h.y.update(record.row as int, b),
        records: h.records.push(record),
        proofs: h.proofs.update(s, h.proofs[s].push(h.records.len() as usize)),
        rows: queues::scheduled(h.rows, record.row),
        ..h
    }
}

/// The rows' columns, scheduled in the order in which the rows tightened.
pub open spec fn row_columns(queue: Seq<usize>, entries: Seq<(usize, Real)>, k: int) -> Seq<usize>
    decreases entries.len() - k,
{
    if k >= entries.len() {
        queue
    } else {
        row_columns(queues::scheduled(queue, entries[k].0), entries, k + 1)
    }
}

pub open spec fn columns_of(
    matrix: Map<(int, int), Real>,
    queue: Seq<usize>,
    rows: Seq<usize>,
    k: int,
) -> Seq<usize>
    decreases rows.len() - k,
{
    if k >= rows.len() {
        queue
    } else {
        columns_of(
            matrix,
            row_columns(queue, listing::line(matrix, false, rows[k] as int), 0),
            rows,
            k + 1,
        )
    }
}

impl<
    P: Fn(Real, Real) -> Real,
    T: Fn(Real, Real) -> Real,
    D: Fn(Real, Real) -> Real,
    H: Fn(Real, Real) -> Real,
> Arithmetic<P, T, D, H> {
    /// Whether `lower` exceeds `upper` by more than a scaled tolerance.
    pub open spec fn apart(&self, lower: Real, upper: Real, feasibility: Real) -> bool {
        self.sum(
            upper,
            self.product(
                feasibility,
                self.sum(one(), lower.absolute().larger(upper.absolute())),
            ),
        ).lt(lower)
    }

    pub fn separated(&self, lower: Real, upper: Real, feasibility: Real) -> (b: bool)
        requires
            self.wf(),
        ensures
            b == self.apart(lower, upper, feasibility),
    {
        let scale = self.sum_of(one(), lower.abs().max(upper.abs()));
        self.sum_of(upper, self.product_of(feasibility, scale)).less(lower)
    }

    /// What a new bound on one side does to an interval.
    pub open spec fn tightening(&self, y: Bounds, side: Side, value: Real, gains: Gains) -> Tightening {
        let old = match side {
            Side::Lower => y.lower,
            Side::Upper => y.upper,
        };
        let changed = match side {
            Side::Lower => Bounds { lower: value, upper: y.upper },
            Side::Upper => Bounds { lower: y.lower, upper: value },
        };
        let gain = match side {
            Side::Lower => self.difference(value, old),
            Side::Upper => self.difference(old, value),
        };
        let least = self.product(gains.minimum_gain_factor, gains.feasibility).larger(
            self.product(gains.minimum_relative_gain, old.absolute()),
        );
        if !value.finite() {
            Tightening::Kept
        } else if changed.upper.lt(changed.lower) {
            if self.apart(changed.lower, changed.upper, gains.feasibility) {
                Tightening::Contradiction
            } else {
                Tightening::Kept
            }
        } else if gain.le(zero()) || old.finite() && gain.le(least) {
            Tightening::Kept
        } else {
            Tightening::Changed(changed)
        }
    }

    /// Improve one bound of a multiplier.
    pub fn tighten_multiplier(&self, y: Bounds, side: Side, value: Real, gains: Gains) -> (r:
        Tightening)
        requires
            self.wf(),
        ensures
            r == self.tightening(y, side, value, gains),
    {
        if !value.is_finite() {
            return Tightening::Kept;
        }
        let (old, changed): (Real, Bounds) = match side {
            Side::Lower => (y.lower, Bounds { lower: value, upper: y.upper }),
            Side::Upper => (y.upper, Bounds { lower: y.lower, upper: value }),
        };
        if changed.upper.less(changed.lower) {
            return if self.separated(changed.lower, changed.upper, gains.feasibility) {
                Tightening::Contradiction
            } else {
                Tightening::Kept
            };
        }
        let gain = match side {
            Side::Lower => self.difference_of(value, old),
            Side::Upper => self.difference_of(old, value),
        };
        if gain.at_most(zero()) {
            return Tightening::Kept;
        }
        let least = self.product_of(gains.minimum_gain_factor, gains.feasibility).max(
            self.product_of(gains.minimum_relative_gain, old.abs()),
        );
        if old.is_finite() && gain.at_most(least) {
            return Tightening::Kept;
        }
        Tightening::Changed(changed)
    }

    /// The activity of entries over intervals, as a value.
    pub open spec fn span(&self, entries: Seq<(usize, Real)>, y: Seq<Bounds>) -> Activity {
        let low = self.gathered(entries, y, None, false);
        let high = self.gathered(entries, y, None, true);
        Activity {
            min: Extreme { sum: low.0, infinite: low.1 as usize },
            max: Extreme { sum: high.0, infinite: high.1 as usize },
        }
    }

    /// A bound that a dual row implies for one multiplier is tried.
    pub open spec fn tried(
        &self,
        h: Holdings,
        side: Side,
        value: Option<Real>,
        record: Record,
        gains: Gains,
    ) -> Holdings {
        match value {
            None => h,
            Some(v) => match self.tightening(h.y[record.row as int], side, v, gains) {
                Tightening::Contradiction => Holdings { halt: Halt::Inconsistent, ..h },
                Tightening::Kept => h,
                Tightening::Changed(b) => recorded(h, b, record, side),
            },
        }
    }

    /// The bounds that one dual row implies, from place `k` of its entries on. A
    /// positive coefficient turns the lower side of the row into a lower bound, a
    /// negative one flips the sides.
    pub open spec fn implications(
        &self,
        h: Holdings,
        entries: Seq<(usize, Real)>,
        column: usize,
        activity: Activity,
        range: Bounds,
        gains: Gains,
        k: int,
    ) -> Holdings
        decreases entries.len() - k,
    {
        if k >= entries.len() || !(h.halt is Running) {
            h
        } else {
            let (i, a) = entries[k];
            let low = self.implied_from(activity, entries, h.y, i, a, range, true);
            let high = self.implied_from(activity, entries, h.y, i, a, range, false);
            let up = zero().lt(a);
            let first = if up {
                self.tried(
                    h,
                    Side::Lower,
                    low,
                    Record { row: i, column, constraint: Side::Lower },
                    gains,
                )
            } else {
                self.tried(
                    h,
                    Side::Lower,
                    high,
                    Record { row: i, column, constraint: Side::Upper },
                    gains,
                )
            };
            let second = if !(first.halt is Running) {
                first
            } else if up {
                self.tried(
                    first,
                    Side::Upper,
                    high,
                    Record { row: i, column, constraint: Side::Upper },
                    gains,
                )
            } else {
                self.tried(
                    first,
                    Side::Upper,
                    low,
                    Record { row: i, column, constraint: Side::Lower },
                    gains,
                )
            };
            self.implications(second, entries, column, activity, range, gains, k + 1)
        }
    }

    /// The multipliers cannot keep the dual row within its interval.
    pub open spec fn contradicts(&self, activity: Activity, range: Bounds, feasibility: Real) -> bool {
        ||| range.upper.finite() && (activity.min.finite_value() matches Some(v) && self.apart(
            v,
            range.upper,
            feasibility,
        ))
        ||| range.lower.finite() && (activity.max.finite_value() matches Some(v) && self.apart(
            range.lower,
            v,
            feasibility,
        ))
    }

    /// Removing one term cannot make an extreme with two unbounded terms finite.
    pub open spec fn hopeless(activity: Activity, range: Bounds) -> bool {
        &&& !range.lower.finite() || activity.max.infinite >= 2
        &&& !range.upper.finite() || activity.min.infinite >= 2
    }

    /// One visit of a column.
    pub open spec fn visited(
        &self,
        model: Model,
        objective: Objective,
        h: Holdings,
        column: usize,
        gains: Gains,
    ) -> Holdings {
        let j = column as int;
        let entries = listing::line(model.a@, true, j);
        if entries.len() > h.left {
            Holdings { halt: Halt::Limited, ..h }
        } else {
            let paid = Holdings { left: (h.left - entries.len()) as usize, ..h };
            match dual_interval(model.bounds@[j], objective.c@[j]) {
                None => paid,
                Some(range) => if !direction::linear_column(model, objective, j) {
                    paid
                } else {
                    let activity = self.span(entries, h.y);
                    let seen = Holdings {
                        activity: h.activity.update(j, Some(activity)),
                        ..paid
                    };
                    if self.contradicts(activity, range, gains.feasibility) {
                        Holdings { halt: Halt::Inconsistent, ..seen }
                    } else if Self::hopeless(activity, range) {
                        seen
                    } else {
                        self.implications(seen, entries, column, activity, range, gains, 0)
                    }
                },
            }
        }
    }

    /// One round: the listed columns are visited in turn, from place `k` on.
    pub open spec fn round(
        &self,
        model: Model,
        objective: Objective,
        h: Holdings,
        list: Seq<usize>,
        gains: Gains,
        k: int,
    ) -> Holdings
        decreases list.len() - k,
    {
        if k >= list.len() || !(h.halt is Running) {
            h
        } else {
            self.round(
                model,
                objective,
                self.visited(model, objective, h, list[k], gains),
                list,
                gains,
                k + 1,
            )
        }
    }

    /// The stages of a propagation: in each the waiting columns are visited, and
    /// the columns of the rows that tightened wait for the next.
    pub open spec fn stages_run(
        &self,
        model: Model,
        objective: Objective,
        stages: Seq<(Holdings, Seq<usize>)>,
        gains: Gains,
    ) -> bool {
        forall|k: int|
            0 <= k < stages.len() - 1 ==> #[trigger] self.stage_follows(
                model,
                objective,
                stages[k],
                stages[k + 1],
                gains,
            )
    }

    pub open spec fn stage_follows(
        &self,
        model: Model,
        objective: Objective,
        before: (Holdings, Seq<usize>),
        after: (Holdings, Seq<usize>),
        gains: Gains,
    ) -> bool {
        let end = self.round(model, objective, before.0, before.1, gains, 0);
        &&& before.0.halt is Running
        &&& before.1.len() > 0
        &&& if end.halt is Running {
            &&& after.0 == (Holdings { rows: Seq::empty(), ..end })
            &&& after.1 == columns_of(model.a@, Seq::empty(), end.rows, 0)
        } else {
            after.0 == end && after.1.len() == 0
        }
    }

    fn attempt(
        &self,
        work: &mut Propagation,
        side: Side,
        value: Option<Real>,
        record: Record,
        gains: Gains,
        Ghost(rows): Ghost<nat>,
        Ghost(columns): Ghost<nat>,
    )
        requires
            self.wf(),
            old(work).fits(rows, columns),
            record.row < rows,
            record.column < columns,
            2 * rows <= usize::MAX,
        ensures
            final(work).fits(rows, columns),
            final(work)@ == self.tried(old(work)@, side, value, record, gains),
    {
        match value {
            None => {},
            Some(v) => {
                match self.tighten_multiplier(work.y[record.row], side, v, gains) {
                    Tightening::Contradiction => {
                        work.halt = Halt::Inconsistent;
                    },
                    Tightening::Kept => {},
                    Tightening::Changed(b) => {
                        let ghost before = work@;
                        let ghost kept = work.proofs@;
                        let s: usize = slot(record.row, side);
                        let number: usize = work.records.len();
                        assert(number == work.records@.len());
                        work.y.set(record.row, b);
                        work.rows.push(record.row);
                        work.records.push(record);
                        let mut list: Vec<usize> = Vec::new();
                        std::mem::swap(&mut list, &mut work.proofs[s]);
                        list.push(number);
                        work.proofs.set(s, list);
                        proof {
                            assert(work@.proofs =~= before.proofs.update(
                                s as int,
                                before.proofs[s as int].push(number),
                            ));
                            assert forall|t: int, k: int|
                                0 <= t < work.proofs@.len() && 0 <= k < work.proofs@[t]@.len()
                                implies #[trigger] work.proofs@[t]@[k] < work.records@.len() by {
                                if t != s {
                                    assert(kept[t]@[k] < before.records.len());
                                } else if k < kept[t]@.len() {
                                    assert(kept[t]@[k] < before.records.len());
                                }
                            }
                            assert(work@ == recorded(before, b, record, side));
                        }
                    },
                }
            },
        }
    }

    fn visit_column(
        &self,
        model: &Model,
        objective: &Objective,
        work: &mut Propagation,
        column: usize,
        gains: Gains,
    )
        requires
            self.wf(),
            model.wf(),
            objective.wf(),
            objective.c@.len() == model.bounds@.len(),
            column < model.bounds@.len(),
            old(work).fits(model.rows@.len(), model.bounds@.len()),
            old(work).halt is Running,
        ensures
            final(work).fits(model.rows@.len(), model.bounds@.len()),
            final(work)@ == self.visited(*model, *objective, old(work)@, column, gains),
            final(work).left <= old(work).left,
            final(work).left == old(work).left && final(work).halt is Running
                ==> final(work).rows@ == old(work).rows@,
    {
        let ghost start = work@;
        let entries = model.column_entries(column);
        if entries.len() > work.left {
            work.halt = Halt::Limited;
            return;
        }
        work.left = work.left - entries.len();
        let range = match dual_row_range(model.bounds[column], objective.c[column]) {
            Some(range) => range,
            None => {
                return;
            },
        };
        if !model.linear_column(objective, column) {
            return;
        }
        assert forall|k: int| 0 <= k < entries@.len() implies (#[trigger] entries@[k]).0
            < work.y@.len() by {}
        let activity = self.activity_of(&entries, &work.y, None);
        assert(activity == self.span(entries@, work.y@));
        work.activity.set(column, Some(activity));
        let over = range.upper.is_finite() && match activity.min.value() {
            Some(v) => self.separated(v, range.upper, gains.feasibility),
            None => false,
        };
        let under = range.lower.is_finite() && match activity.max.value() {
            Some(v) => self.separated(range.lower, v, gains.feasibility),
            None => false,
        };
        if over || under {
            work.halt = Halt::Inconsistent;
            return;
        }
        if (!range.lower.is_finite() || activity.max.infinite >= 2) && (!range.upper.is_finite()
            || activity.min.infinite >= 2) {
            return;
        }
        let ghost goal = self.implications(work@, entries@, column, activity, range, gains, 0);
        let ghost (rows, columns) = (model.rows@.len(), model.bounds@.len());
        assert(work.proofs.len() == work.proofs@.len());
        let ghost paid = work@;
        let mut k: usize = 0;
        while k < entries.len()
            invariant
                k <= entries@.len(),
                self.wf(),
                rows == model.rows@.len(),
                columns == model.bounds@.len(),
                2 * rows <= usize::MAX,
                column < columns,
                model::in_range(entries@, rows),
                work.fits(rows, columns),
                work.left == paid.left,
                work.halt is Running,
                k == 0 ==> work.rows@ == paid.rows,
                goal == self.implications(paid, entries@, column, activity, range, gains, 0),
                goal == self.implications(
                    work@,
                    entries@,
                    column,
                    activity,
                    range,
                    gains,
                    k as int,
                ),
                start.left == paid.left + entries@.len(),
                goal == self.visited(*model, *objective, start, column, gains),
                start == old(work)@,
                paid.rows == start.rows,
            decreases entries@.len() - k,
        {
            let (i, a): (usize, Real) = entries[k];
            assert(entries@[k as int].0 < rows);
            let low = self.implied_from_side(activity, &entries, &work.y, i, a, range, true);
            let high = self.implied_from_side(activity, &entries, &work.y, i, a, range, false);
            let up = zero().less(a);
            let lower = Record { row: i, column, constraint: Side::Lower };
            let upper = Record { row: i, column, constraint: Side::Upper };
            if up {
                self.attempt(work, Side::Lower, low, lower, gains, Ghost(rows), Ghost(columns));
            } else {
                self.attempt(work, Side::Lower, high, upper, gains, Ghost(rows), Ghost(columns));
            }
            if work.halt != Halt::Running {
                assert(self.implications(work@, entries@, column, activity, range, gains, k + 1)
                    == work@);
                return;
            }
            if up {
                self.attempt(work, Side::Upper, high, upper, gains, Ghost(rows), Ghost(columns));
            } else {
                self.attempt(work, Side::Upper, low, lower, gains, Ghost(rows), Ghost(columns));
            }
            if work.halt != Halt::Running {
                assert(self.implications(work@, entries@, column, activity, range, gains, k + 1)
                    == work@);
                return;
            }
            k = k + 1;
        }
    }

    /// The columns that a propagation visits first.
    pub open spec fn eligible(model: Model, objective: Objective, n: nat) -> Seq<usize>
        decreases n,
    {
        if n == 0 {
            Seq::empty()
        } else {
            let before = Self::eligible(model, objective, (n - 1) as nat);
            if direction::linear_column(model, objective, n - 1) && dual_interval(
                model.bounds@[n - 1],
                objective.c@[n - 1],
            ) is Some {
                queues::scheduled(before, (n - 1) as usize)
            } else {
                before
            }
        }
    }

    /// Bounds on the multipliers, as far as the allowance goes. The columns of the
    /// rows that tightened in a round are visited in the next one.
    pub fn propagate_multipliers(
        &self,
        model: &Model,
        objective: &Objective,
        budget: usize,
        gains: Gains,
    ) -> (work: Propagation)
        requires
            self.wf(),
            model.wf(),
            objective.wf(),
            objective.c@.len() == model.bounds@.len(),
            2 * model.rows@.len() <= usize::MAX,
        ensures
            work.fits(model.rows@.len(), model.bounds@.len()),
            exists|stages: Seq<(Holdings, Seq<usize>)>|
                {
                    &&& #[trigger] self.stages_run(*model, *objective, stages, gains)
                    &&& stages.len() > 0
                    &&& stages[0] == (
                        unpropagated(*model, budget),
                        Self::eligible(*model, *objective, model.bounds@.len()),
                    )
                    &&& stages.last().0 == work@
                    &&& stages.last().1.len() == 0
                },
    {
        let (m, n): (usize, usize) = (model.rows.len(), model.bounds.len());
        proof {
            model.a.counts_fit();
        }
        let mut y: Vec<Bounds> = Vec::new();
        let mut i: usize = 0;
        while i < m
            invariant
                i <= m == model.rows@.len(),
                y@ == unpropagated(*model, budget).y.take(i as int),
            decreases m - i,
        {
            let b = match model.rows[i] {
                RowDomain::Linear(b) => multiplier_range(b),
                _ => Bounds::free(),
            };
            y.push(b);
            i = i + 1;
            assert(y@ =~= unpropagated(*model, budget).y.take(i as int));
        }
        assert(y@ =~= unpropagated(*model, budget).y);
        let mut proofs: Vec<Vec<usize>> = Vec::new();
        let mut p: usize = 0;
        while p < 2 * m
            invariant
                p <= 2 * m <= usize::MAX,
                proofs@.len() == p,
                forall|k: int| 0 <= k < p ==> (#[trigger] proofs@[k])@ =~= Seq::<usize>::empty(),
            decreases 2 * m - p,
        {
            proofs.push(Vec::new());
            p = p + 1;
        }
        let activity: Vec<Option<Activity>> = vec![None; n];
        let mut work = Propagation {
            y,
            records: Vec::new(),
            proofs,
            rows: Worklist::new(m),
            activity,
            left: budget,
            halt: Halt::Running,
        };
        let mut queue = Worklist::new(n);
        let mut j: usize = 0;
        while j < n
            invariant
                j <= n == model.bounds@.len(),
                model.wf(),
                objective.wf(),
                objective.c@.len() == model.bounds@.len(),
                queue.wf(),
                queue@ == Self::eligible(*model, *objective, j as nat),
                direction::places_fit(queue@, n as nat),
            decreases n - j,
        {
            if model.linear_column(objective, j) && dual_row_range(
                model.bounds[j],
                objective.c[j],
            ).is_some() {
                queue.push(j);
            }
            j = j + 1;
        }
        proof {
            let start = unpropagated(*model, budget);
            assert(work@.proofs =~= start.proofs);
            assert(work@.activity =~= start.activity);
            assert(work@.records =~= start.records);
            assert(work@ == start);
        }
        let ghost mut stages: Seq<(Holdings, Seq<usize>)> = seq![(work@, queue@)];
        let ghost (rows, columns) = (model.rows@.len(), model.bounds@.len());
        while !queue.is_empty()
            invariant
                self.wf(),
                model.wf(),
                objective.wf(),
                objective.c@.len() == model.bounds@.len(),
                2 * model.rows@.len() <= usize::MAX,
                rows == model.rows@.len(),
                columns == model.bounds@.len(),
                columns <= usize::MAX,
                work.fits(rows, columns),
                queue.wf(),
                direction::places_fit(queue@, columns),
                queue@.len() > 0 ==> work.halt is Running && work.rows@.len() == 0,
                stages.len() > 0,
                stages[0] == (
                    unpropagated(*model, budget),
                    Self::eligible(*model, *objective, model.bounds@.len()),
                ),
                stages.last() == (work@, queue@),
                self.stages_run(*model, *objective, stages, gains),
            decreases work.left, queue@.len(),
        {
            let ghost before = (work@, queue@);
            let list: Vec<usize> = queue.take_round();
            let mut k: usize = 0;
            while k < list.len() && work.halt == Halt::Running
                invariant
                    k <= list@.len(),
                    self.wf(),
                    model.wf(),
                    objective.wf(),
                    objective.c@.len() == model.bounds@.len(),
                    rows == model.rows@.len(),
                    columns == model.bounds@.len(),
                    work.fits(rows, columns),
                    direction::places_fit(list@, columns),
                    work.left <= before.0.left,
                    work.left == before.0.left && work.halt is Running ==> work.rows@.len() == 0,
                    self.round(*model, *objective, before.0, list@, gains, 0) == self.round(
                        *model,
                        *objective,
                        work@,
                        list@,
                        gains,
                        k as int,
                    ),
                decreases list@.len() - k,
            {
                assert(list@[k as int] < columns);
                self.visit_column(model, objective, &mut work, list[k], gains);
                k = k + 1;
            }
            let ghost end = work@;
            assert(end == self.round(*model, *objective, before.0, list@, gains, 0));
            if work.halt != Halt::Running {
                assert(queue@.len() == 0);
                proof {
                    let after = (work@, queue@);
                    assert(self.stage_follows(*model, *objective, before, after, gains));
                    self.stage_joins(*model, *objective, stages, after, gains);
                    stages = stages.push(after);
                }
            } else {
                let tightened: Vec<usize> = work.rows.take_round();
                let mut t: usize = 0;
                while t < tightened.len()
                    invariant
                        t <= tightened@.len(),
                        model.wf(),
                        columns == model.bounds@.len(),
                        columns <= usize::MAX,
                        direction::places_fit(tightened@, model.rows@.len()),
                        queue.wf(),
                        direction::places_fit(queue@, columns),
                        tightened@.len() == 0 ==> queue@.len() == 0,
                        columns_of(model.a@, Seq::empty(), tightened@, 0) == columns_of(
                            model.a@,
                            queue@,
                            tightened@,
                            t as int,
                        ),
                    decreases tightened@.len() - t,
                {
                    assert(tightened@[t as int] < model.rows@.len());
                    let entries = model.row_entries(tightened[t]);
                    let ghost whole = row_columns(queue@, entries@, 0);
                    let mut e: usize = 0;
                    while e < entries.len()
                        invariant
                            e <= entries@.len(),
                            columns <= usize::MAX,
                            model::in_range(entries@, columns),
                            queue.wf(),
                            direction::places_fit(queue@, columns),
                            whole == row_columns(queue@, entries@, e as int),
                        decreases entries@.len() - e,
                    {
                        assert(entries@[e as int].0 < columns);
                        queue.push(entries[e].0);
                        e = e + 1;
                    }
                    t = t + 1;
                }
                proof {
                    let after = (work@, queue@);
                    assert(after.0 == (Holdings { rows: Seq::empty(), ..end }));
                    assert(self.stage_follows(*model, *objective, before, after, gains));
                    self.stage_joins(*model, *objective, stages, after, gains);
                    stages = stages.push(after);
                }
            }
        }
        work
    }

    proof fn stage_joins(
        &self,
        model: Model,
        objective: Objective,
        stages: Seq<(Holdings, Seq<usize>)>,
        after: (Holdings, Seq<usize>),
        gains: Gains,
    )
        requires
            stages.len() > 0,
            self.stages_run(model, objective, stages, gains),
            self.stage_follows(model, objective, stages.last(), after, gains),
        ensures
            self.stages_run(model, objective, stages.push(after), gains),
    {
        let more = stages.push(after);
        assert forall|k: int| 0 <= k < more.len() - 1 implies #[trigger] self.stage_follows(
            model,
            objective,
            more[k],
            more[k + 1],
            gains,
        ) by {
            if k < stages.len() - 1 {
                assert(self.stage_follows(model, objective, stages[k], stages[k + 1], gains));
            }
        }
    }
}

/// Nothing is known beyond the signs.
pub open spec fn unpropagated(model: Model, budget: usize) -> Holdings {
    Holdings {
        y: Seq::new(
            model.rows@.len(),
            |i: int|
                match model.rows@[i] {
                    RowDomain::Linear(b) => multiplier_interval(b),
                    _ => Bounds::free(),
                },
        ),
        records: Seq::empty(),
        proofs: Seq::new(2 * model.rows@.len(), |s: int| Seq::empty()),
        rows: Seq::empty(),
        activity: Seq::new(model.bounds@.len(), |j: int| None),
        left: budget,
        halt: Halt::Running,
    }
}

} // verus!
