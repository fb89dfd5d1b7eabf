//! Primal directions that come from proofs about multipliers.
//!
//! A bound on a multiplier is a combination of dual rows, and that combination
//! is a direction in which every feasible point can move. A direction is checked
//! on the current model before it is used: it keeps every row and every bound,
//! and the objective does not grow along it.

use crate::arithmetic::Arithmetic;
use crate::bounds::{Bounds, RowDomain, Side};
use crate::linked::{self, Entries};
use crate::listing;
use crate::model::{self, Model};
use crate::number::{minus_one, one, zero, Real};
use crate::objective::Objective;
use vstd::prelude::*;

verus! {

/// One tightening of a multiplier: a bound for row `row` came out of the dual
/// row of `column`, on the `constraint` side of its interval.
#[derive(Clone, Copy, Debug, PartialEq, Eq, Structural)]
pub struct Record {
    pub row: usize,
    pub column: usize,
    pub constraint: Side,
}

/// What a direction is for.
#[derive(Clone, Copy, Debug, PartialEq, Eq, Structural)]
pub enum Aim {
    /// Slide a column onto this bound.
    Fix(usize, Side),
    /// Slide the activity of a row onto this side.
    Restrict(usize, Side),
}

/// What the check of a direction says.
#[derive(Clone, Debug)]
pub enum Judgement {
    /// The direction is not usable.
    Refused,
    /// Every feasible point can slide until the aim is reached.
    Reaches,
    /// The aim is never reached and the objective falls forever.
    Ray(Entries),
}

/// The place of one bound of a row's multiplier.
pub open spec fn place_of(row: int, side: Side) -> int {
    2 * row + if side is Upper {
        1int
    } else {
        0
    }
}

/// The place of one bound of a row's multiplier in a list of both.
pub fn slot(row: usize, side: Side) -> (r: usize)
    requires
        2 * row + 1 <= usize::MAX,
    ensures
        r == place_of(row as int, side),
{
    match side {
        Side::Lower => 2 * row,
        Side::Upper => 2 * row + 1,
    }
}

/// The bound of a multiplier that makes its term extreme on one side of a dual
/// row: the upper side takes each term's least value, the lower its greatest.
pub open spec fn extremal(constraint: Side, a: Real) -> Side {
    if (constraint is Upper) == zero().lt(a) {
        Side::Lower
    } else {
        Side::Upper
    }
}

pub fn used_bound(constraint: Side, a: Real) -> (side: Side)
    ensures
        side == extremal(constraint, a),
{
    if (constraint == Side::Upper) == zero().less(a) {
        Side::Lower
    } else {
        Side::Upper
    }
}

/// The last of the listed records that is older than record `k`.
pub open spec fn latest(list: Seq<usize>, k: int) -> Option<usize>
    decreases list.len(),
{
    if list.len() == 0 {
        None
    } else if list.last() < k {
        Some(list.last())
    } else {
        latest(list.drop_last(), k)
    }
}

pub(crate) fn latest_before(list: &Vec<usize>, k: usize) -> (r: Option<usize>)
    ensures
        r == latest(list@, k as int),
        r matches Some(s) ==> s < k && list@.contains(s),
{
    let mut at: usize = list.len();
    assert(list@.take(at as int) =~= list@);
    while at > 0
        invariant
            at <= list@.len(),
            latest(list@, k as int) == latest(list@.take(at as int), k as int),
        decreases at,
    {
        assert(list@.take(at as int).drop_last() =~= list@.take(at - 1));
        assert(list@.take(at as int).last() == list@[at - 1]);
        if list[at - 1] < k {
            return Some(list[at - 1]);
        }
        at = at - 1;
    }
    None
}

/// Alive, absent from the Hessian and from every conic row.
pub open spec fn linear_column(model: Model, objective: Objective, j: int) -> bool {
    &&& model.alive@[j]
    &&& listing::line(objective.p@, false, j).len() == 0
    &&& model.cones@.len() == 0 || all_linear(model.rows@, listing::line(model.a@, true, j))
}

pub open spec fn all_linear(rows: Seq<RowDomain>, entries: Seq<(usize, Real)>) -> bool {
    forall|k: int| 0 <= k < entries.len() ==> rows[(#[trigger] entries[k]).0 as int] is Linear
}

impl Model {
    /// Whether a column is linear: its reduced cost is then its cost less the
    /// multipliers of its rows.
    pub fn linear_column(&self, objective: &Objective, j: usize) -> (b: bool)
        requires
            self.wf(),
            objective.wf(),
            objective.c@.len() == self.bounds@.len(),
            j < self.bounds@.len(),
        ensures
            b == linear_column(*self, *objective, j as int),
    {
        if !self.alive[j] {
            return false;
        }
        let curvature = objective.p.row(j).to_vec();
        proof {
            listing::line_is(curvature@, objective.p@, false, j as int);
        }
        if curvature.len() > 0 {
            return false;
        }
        if self.cones.len() == 0 {
            return true;
        }
        let entries = self.column_entries(j);
        let mut k: usize = 0;
        while k < entries.len()
            invariant
                k <= entries@.len(),
                self.cones@.len() > 0,
                entries@ == listing::line(self.a@, true, j as int),
                model::in_range(entries@, self.rows@.len()),
                forall|i: int|
                    0 <= i < k ==> self.rows@[(#[trigger] entries@[i]).0 as int] is Linear,
            decreases entries@.len() - k,
        {
            assert(entries@[k as int].0 < self.rows@.len());
            match self.rows[entries[k].0] {
                RowDomain::Linear(_) => {},
                _ => {
                    return false;
                },
            }
            k = k + 1;
        }
        true
    }
}

/// A walk through a proof, from the latest record back.
pub struct Walk {
    /// What is still to be spent on each record.
    pub weights: Vec<Option<Real>>,
    /// The multiplier of each dual row, and the dual rows that took part.
    pub lambda: Vec<Real>,
    pub touched: Vec<usize>,
    /// The entries that may still be visited.
    pub left: usize,
}

pub ghost struct Trail {
    pub weights: Seq<Option<Real>>,
    pub lambda: Seq<Real>,
    pub touched: Seq<usize>,
    pub left: usize,
}

impl View for Walk {
    type V = Trail;

    open spec fn view(&self) -> Trail {
        Trail {
            weights: self.weights@,
            lambda: self.lambda@,
            touched: self.touched@,
            left: self.left,
        }
    }
}

/// The proof of every bound, as numbers of records, for each row and side.
pub open spec fn proofs_fit(proofs: Seq<Vec<usize>>, rows: nat, records: nat) -> bool {
    &&& proofs.len() == 2 * rows
    &&& forall|s: int, k: int|
        0 <= s < proofs.len() && 0 <= k < proofs[s]@.len() ==> #[trigger] proofs[s]@[k] < records
}

pub open spec fn records_fit(records: Seq<Record>, rows: nat, columns: nat) -> bool {
    forall|k: int|
        0 <= k < records.len() ==> (#[trigger] records[k]).row < rows && records[k].column < columns
}

pub open spec fn places_fit(list: Seq<usize>, limit: nat) -> bool {
    forall|k: int| 0 <= k < list.len() ==> #[trigger] list[k] < limit
}

/// The change of every row along a direction, and the rows that change.
pub ghost struct Sweep {
    pub cost: Real,
    pub change: Seq<Real>,
    pub rows: Seq<usize>,
}

/// Whether a variable may move by `d` without leaving its interval at once, or
/// is the one that is meant to reach its bound.
pub open spec fn move_allowed(b: Bounds, d: Real, target: bool) -> bool {
    &&& d.finite()
    &&& target || (b.lower.finite() ==> zero().lt(d)) && (b.upper.finite() ==> d.lt(zero()))
}

/// Whether the activity of a row may change by `change`.
pub open spec fn change_allowed(b: Bounds, change: Real, toward: bool) -> bool {
    if b.lower.finite() && b.upper.finite() {
        change.zero()
    } else {
        toward || (b.lower.finite() ==> zero().le(change)) && (b.upper.finite() ==> change.le(
            zero(),
        ))
    }
}

/// Rows checked from place `k` on: whether all allow the change, and whether
/// the last mention of the aimed row drives it to its side.
pub open spec fn rows_judged(
    rows: Seq<RowDomain>,
    change: Seq<Real>,
    list: Seq<usize>,
    aim: Aim,
    drives: bool,
    k: int,
) -> Option<bool>
    decreases list.len() - k,
{
    if k >= list.len() {
        Some(drives)
    } else {
        let i = list[k] as int;
        let v = change[i];
        match rows[i] {
            RowDomain::Linear(b) => {
                let toward = aim matches Aim::Restrict(row, _) && row == i;
                let next = if toward {
                    match aim {
                        Aim::Restrict(_, Side::Lower) => v.lt(zero()),
                        _ => zero().lt(v),
                    }
                } else {
                    drives
                };
                if v.finite() && change_allowed(b, v, toward) {
                    rows_judged(rows, change, list, aim, next, k + 1)
                } else {
                    None
                }
            },
            _ => None,
        }
    }
}

fn judge_rows(
    model: &Model,
    change: &Vec<Real>,
    list: &Vec<usize>,
    aim: Aim,
) -> (r: Option<bool>)
    requires
        model.wf(),
        change@.len() == model.rows@.len(),
        places_fit(list@, model.rows@.len()),
    ensures
        r == rows_judged(model.rows@, change@, list@, aim, false, 0),
{
    let mut drives = false;
    let mut k: usize = 0;
    while k < list.len()
        invariant
            k <= list@.len(),
            change@.len() == model.rows@.len(),
            places_fit(list@, model.rows@.len()),
            rows_judged(model.rows@, change@, list@, aim, false, 0) == rows_judged(
                model.rows@,
                change@,
                list@,
                aim,
                drives,
                k as int,
            ),
        decreases list@.len() - k,
    {
        let i: usize = list[k];
        assert(list@[k as int] < model.rows@.len());
        let v = change[i];
        let b = match model.rows[i] {
            RowDomain::Linear(b) => b,
            _ => {
                return None;
            },
        };
        let mut toward = false;
        match aim {
            Aim::Restrict(row, side) => {
                if row == i {
                    toward = true;
                    drives = match side {
                        Side::Lower => v.less(zero()),
                        Side::Upper => zero().less(v),
                    };
                }
            },
            _ => {},
        }
        let (low, high): (bool, bool) = (b.lower.is_finite(), b.upper.is_finite());
        let allowed = if low && high {
            v.is_zero()
        } else {
            toward || (!low || zero().at_most(v)) && (!high || v.at_most(zero()))
        };
        if !v.is_finite() || !allowed {
            return None;
        }
        k = k + 1;
    }
    Some(drives)
}

impl<
    P: Fn(Real, Real) -> Real,
    T: Fn(Real, Real) -> Real,
    D: Fn(Real, Real) -> Real,
    H: Fn(Real, Real) -> Real,
> Arithmetic<P, T, D, H> {
    /// What the other bounds that a dual row used are charged, from place `k` on.
    pub open spec fn charged(
        &self,
        weights: Seq<Option<Real>>,
        entries: Seq<(usize, Real)>,
        record: Record,
        at: int,
        proofs: Seq<Vec<usize>>,
        scale: Real,
        k: int,
    ) -> Seq<Option<Real>>
        decreases entries.len() - k,
    {
        if k >= entries.len() {
            weights
        } else {
            let (i, a) = entries[k];
            let list = proofs[place_of(i as int, extremal(record.constraint, a))]@;
            let next = match latest(list, at) {
                Some(s) if i != record.row => weights.update(
                    s as int,
                    Some(
                        self.sum(
                            match weights[s as int] {
                                Some(w) => w,
                                None => zero(),
                            },
                            self.product(scale, a.absolute()),
                        ),
                    ),
                ),
                _ => weights,
            };
            self.charged(next, entries, record, at, proofs, scale, k + 1)
        }
    }

    /// Record `at` spends its weight on its column's dual row and on the bounds
    /// which that row used.
    pub open spec fn spent(
        &self,
        matrix: Map<(int, int), Real>,
        records: Seq<Record>,
        proofs: Seq<Vec<usize>>,
        trail: Trail,
        at: int,
        weight: Real,
    ) -> (Trail, bool) {
        let record = records[at];
        let entries = listing::line(matrix, true, record.column as int);
        let pivot = linked::value_at(matrix, record.row as int, record.column as int).absolute();
        if entries.len() > trail.left {
            (trail, false)
        } else if pivot.zero() {
            (Trail { left: (trail.left - entries.len()) as usize, ..trail }, false)
        } else {
            let scale = self.quotient(weight, pivot);
            let j = record.column as int;
            (
                Trail {
                    weights: self.charged(
                        trail.weights.update(at, None),
                        entries,
                        record,
                        at,
                        proofs,
                        scale,
                        0,
                    ),
                    lambda: trail.lambda.update(
                        j,
                        self.sum(
                            trail.lambda[j],
                            if record.constraint is Lower {
                                scale
                            } else {
                                scale.opposite()
                            },
                        ),
                    ),
                    touched: if trail.lambda[j].zero() {
                        trail.touched.push(record.column)
                    } else {
                        trail.touched
                    },
                    left: (trail.left - entries.len()) as usize,
                },
                true,
            )
        }
    }

    /// The walk over the first `n` records, from the latest back; it stops where
    /// the allowance is used up.
    pub open spec fn walked(
        &self,
        matrix: Map<(int, int), Real>,
        records: Seq<Record>,
        proofs: Seq<Vec<usize>>,
        trail: Trail,
        n: nat,
    ) -> (Trail, bool)
        decreases n,
    {
        if n == 0 {
            (trail, true)
        } else {
            match trail.weights[n - 1] {
                None => self.walked(matrix, records, proofs, trail, (n - 1) as nat),
                Some(weight) => {
                    let (next, going) = self.spent(matrix, records, proofs, trail, n - 1, weight);
                    if going {
                        self.walked(matrix, records, proofs, next, (n - 1) as nat)
                    } else {
                        (next, false)
                    }
                },
            }
        }
    }

    fn charge(
        &self,
        weights: &mut Vec<Option<Real>>,
        entries: &Entries,
        record: Record,
        at: usize,
        proofs: &Vec<Vec<usize>>,
        scale: Real,
        Ghost(rows): Ghost<nat>,
    )
        requires
            self.wf(),
            model::in_range(entries@, rows),
            rows * 2 <= usize::MAX,
            proofs_fit(proofs@, rows, old(weights)@.len()),
        ensures
            final(weights)@ == self.charged(
                old(weights)@,
                entries@,
                record,
                at as int,
                proofs@,
                scale,
                0,
            ),
            final(weights)@.len() == old(weights)@.len(),
    {
        let ghost start = weights@;
        let mut k: usize = 0;
        while k < entries.len()
            invariant
                k <= entries@.len(),
                self.wf(),
                model::in_range(entries@, rows),
                rows * 2 <= usize::MAX,
                weights@.len() == start.len(),
                proofs_fit(proofs@, rows, start.len()),
                self.charged(start, entries@, record, at as int, proofs@, scale, 0)
                    == self.charged(
                    weights@,
                    entries@,
                    record,
                    at as int,
                    proofs@,
                    scale,
                    k as int,
                ),
            decreases entries@.len() - k,
        {
            let (i, a): (usize, Real) = entries[k];
            assert(entries@[k as int].0 < rows);
            let used = used_bound(record.constraint, a);
            let found = latest_before(&proofs[slot(i, used)], at);
            match found {
                Some(s) => {
                    if i != record.row {
                        proof {
                            let list = proofs@[place_of(i as int, used)]@;
                            let at = choose|at: int| 0 <= at < list.len() && list[at] == s;
                            assert(list[at] < start.len());
                        }
                        let held = match weights[s] {
                            Some(w) => w,
                            None => zero(),
                        };
                        let total = self.sum_of(held, self.product_of(scale, a.abs()));
                        weights.set(s, Some(total));
                    }
                },
                None => {},
            }
            k = k + 1;
        }
    }

    fn walk_proof(
        &self,
        model: &Model,
        records: &Vec<Record>,
        proofs: &Vec<Vec<usize>>,
        walk: &mut Walk,
    ) -> (going: bool)
        requires
            self.wf(),
            model.wf(),
            records_fit(records@, model.rows@.len(), model.bounds@.len()),
            proofs_fit(proofs@, model.rows@.len(), records@.len()),
            old(walk).weights@.len() == records@.len(),
            old(walk).lambda@.len() == model.bounds@.len(),
            places_fit(old(walk).touched@, model.bounds@.len()),
        ensures
            (final(walk)@, going) == self.walked(
                model.a@,
                records@,
                proofs@,
                old(walk)@,
                records@.len(),
            ),
            final(walk).lambda@.len() == model.bounds@.len(),
            places_fit(final(walk).touched@, model.bounds@.len()),
    {
        let ghost goal = self.walked(model.a@, records@, proofs@, walk@, records@.len());
        let mut n: usize = records.len();
        assert(proofs.len() == proofs@.len());
        while n > 0
            invariant
                n <= records@.len(),
                self.wf(),
                model.wf(),
                model.rows@.len() * 2 <= usize::MAX,
                records_fit(records@, model.rows@.len(), model.bounds@.len()),
                proofs_fit(proofs@, model.rows@.len(), records@.len()),
                walk.weights@.len() == records@.len(),
                walk.lambda@.len() == model.bounds@.len(),
                places_fit(walk.touched@, model.bounds@.len()),
                goal == self.walked(model.a@, records@, proofs@, old(walk)@, records@.len()),
                goal == self.walked(model.a@, records@, proofs@, walk@, n as nat),
            decreases n,
        {
            let at: usize = n - 1;
            n = n - 1;
            let weight = match walk.weights[at] {
                Some(weight) => weight,
                None => {
                    continue;
                },
            };
            let record = records[at];
            let j: usize = record.column;
            assert(records@[at as int].row < model.rows@.len());
            let entries = model.column_entries(j);
            if entries.len() > walk.left {
                return false;
            }
            let ghost before = walk@;
            walk.left = walk.left - entries.len();
            let pivot = model.a.get(record.row, j).abs();
            if pivot.is_zero() {
                return false;
            }
            let scale = self.quotient_of(weight, pivot);
            let held = walk.lambda[j];
            if held.is_zero() {
                walk.touched.push(j);
            }
            let share = match record.constraint {
                Side::Lower => scale,
                Side::Upper => scale.neg(),
            };
            walk.lambda.set(j, self.sum_of(held, share));
            walk.weights.set(at, None);
            let mut weights: Vec<Option<Real>> = Vec::new();
            std::mem::swap(&mut walk.weights, &mut weights);
            self.charge(
                &mut weights,
                &entries,
                record,
                at,
                proofs,
                scale,
                Ghost(model.rows@.len()),
            );
            walk.weights = weights;
            assert((walk@, true) == self.spent(
                model.a@,
                records@,
                proofs@,
                before,
                at as int,
                weight,
            ));
        }
        true
    }

    /// Rows moved by one column, from place `k` of its entries on.
    pub open spec fn pushed(
        &self,
        sweep: Sweep,
        entries: Seq<(usize, Real)>,
        d: Real,
        k: int,
    ) -> Sweep
        decreases entries.len() - k,
    {
        if k >= entries.len() {
            sweep
        } else {
            let (i, a) = entries[k];
            let held = sweep.change[i as int];
            self.pushed(
                Sweep {
                    cost: sweep.cost,
                    change: sweep.change.update(i as int, self.sum(held, self.product(a, d))),
                    rows: if held.zero() {
                        sweep.rows.push(i)
                    } else {
                        sweep.rows
                    },
                },
                entries,
                d,
                k + 1,
            )
        }
    }

    /// The direction against the listed multipliers, from place `k` of the list
    /// on: its cost and what it does to the rows. Nothing where a variable may
    /// not move so.
    pub open spec fn swept(
        &self,
        model: Model,
        objective: Objective,
        lambda: Seq<Real>,
        touched: Seq<usize>,
        target: Option<usize>,
        sweep: Sweep,
        k: int,
    ) -> Option<Sweep>
        decreases touched.len() - k,
    {
        if k >= touched.len() {
            Some(sweep)
        } else {
            let j = touched[k];
            let d = lambda[j as int].opposite();
            if d.zero() {
                self.swept(model, objective, lambda, touched, target, sweep, k + 1)
            } else if linear_column(model, objective, j as int) && move_allowed(
                model.bounds@[j as int],
                d,
                target == Some(j),
            ) {
                self.swept(
                    model,
                    objective,
                    lambda,
                    touched,
                    target,
                    self.pushed(
                        Sweep {
                            cost: self.sum(
                                sweep.cost,
                                self.product(objective.c@[j as int], d),
                            ),
                            ..sweep
                        },
                        listing::line(model.a@, true, j as int),
                        d,
                        0,
                    ),
                    k + 1,
                )
            } else {
                None
            }
        }
    }

    fn sweep_of(
        &self,
        model: &Model,
        objective: &Objective,
        lambda: &Vec<Real>,
        touched: &Vec<usize>,
        target: Option<usize>,
    ) -> (r: Option<(Real, Vec<Real>, Vec<usize>)>)
        requires
            self.wf(),
            model.wf(),
            objective.wf(),
            objective.c@.len() == model.bounds@.len(),
            lambda@.len() == model.bounds@.len(),
            places_fit(touched@, model.bounds@.len()),
        ensures
            match r {
                Some((cost, change, rows)) => {
                    &&& self.swept(
                        *model,
                        *objective,
                        lambda@,
                        touched@,
                        target,
                        still(model.rows@.len()),
                        0,
                    ) == Some(Sweep { cost, change: change@, rows: rows@ })
                    &&& change@.len() == model.rows@.len()
                    &&& places_fit(rows@, model.rows@.len())
                },
                None => self.swept(
                    *model,
                    *objective,
                    lambda@,
                    touched@,
                    target,
                    still(model.rows@.len()),
                    0,
                ) is None,
            },
    {
        let mut cost = zero();
        let mut change: Vec<Real> = vec![zero(); model.rows.len()];
        let mut rows: Vec<usize> = Vec::new();
        let ghost goal = self.swept(
            *model,
            *objective,
            lambda@,
            touched@,
            target,
            still(model.rows@.len()),
            0,
        );
        proof {
            assert(change@ =~= still(model.rows@.len()).change);
            assert(rows@ =~= Seq::<usize>::empty());
        }
        let mut k: usize = 0;
        while k < touched.len()
            invariant
                k <= touched@.len(),
                self.wf(),
                model.wf(),
                objective.wf(),
                objective.c@.len() == model.bounds@.len(),
                lambda@.len() == model.bounds@.len(),
                places_fit(touched@, model.bounds@.len()),
                change@.len() == model.rows@.len(),
                places_fit(rows@, model.rows@.len()),
                goal == self.swept(
                    *model,
                    *objective,
                    lambda@,
                    touched@,
                    target,
                    still(model.rows@.len()),
                    0,
                ),
                goal == self.swept(
                    *model,
                    *objective,
                    lambda@,
                    touched@,
                    target,
                    (Sweep { cost, change: change@, rows: rows@ }),
                    k as int,
                ),
            decreases touched@.len() - k,
        {
            let j: usize = touched[k];
            assert(touched@[k as int] < model.bounds@.len());
            let d = lambda[j].neg();
            if d.is_zero() {
                k = k + 1;
                continue;
            }
            if !model.linear_column(objective, j) {
                return None;
            }
            let b = model.bounds[j];
            let aimed = match target {
                Some(t) => t == j,
                None => false,
            };
            if !d.is_finite() || !(aimed || (!b.lower.is_finite() || zero().less(d)) && (
            !b.upper.is_finite() || d.less(zero()))) {
                return None;
            }
            let entries = model.column_entries(j);
            cost = self.sum_of(cost, self.product_of(objective.c[j], d));
            let ghost pushing = self.pushed(
                (Sweep { cost, change: change@, rows: rows@ }),
                entries@,
                d,
                0,
            );
            let mut e: usize = 0;
            while e < entries.len()
                invariant
                    e <= entries@.len(),
                    self.wf(),
                    model::in_range(entries@, model.rows@.len()),
                    change@.len() == model.rows@.len(),
                    places_fit(rows@, model.rows@.len()),
                    pushing == self.pushed(
                        (Sweep { cost, change: change@, rows: rows@ }),
                        entries@,
                        d,
                        e as int,
                    ),
                decreases entries@.len() - e,
            {
                let (i, a): (usize, Real) = entries[e];
                assert(entries@[e as int].0 < model.rows@.len());
                let held = change[i];
                if held.is_zero() {
                    rows.push(i);
                }
                change.set(i, self.sum_of(held, self.product_of(a, d)));
                e = e + 1;
            }
            k = k + 1;
        }
        Some((cost, change, rows))
    }

    /// The multipliers with the unit step that seeds a direction.
    pub open spec fn seeded(&self, trail: Trail, seed: Option<(usize, Side)>) -> Trail {
        match seed {
            None => trail,
            Some((q, side)) => Trail {
                lambda: trail.lambda.update(
                    q as int,
                    self.sum(
                        trail.lambda[q as int],
                        if side is Lower {
                            one()
                        } else {
                            minus_one()
                        },
                    ),
                ),
                touched: if trail.lambda[q as int].zero() {
                    trail.touched.push(q)
                } else {
                    trail.touched
                },
                ..trail
            },
        }
    }

    /// What the check of a direction says: `None` refuses it, `Some(true)` says
    /// that it reaches its aim, `Some(false)` that it is a ray along which the
    /// objective falls.
    pub open spec fn judged(
        &self,
        model: Model,
        objective: Objective,
        lambda: Seq<Real>,
        touched: Seq<usize>,
        target: Option<usize>,
        aim: Aim,
    ) -> Option<bool> {
        match self.swept(
            model,
            objective,
            lambda,
            touched,
            target,
            still(model.rows@.len()),
            0,
        ) {
            None => None,
            Some(sweep) => if !sweep.cost.finite() || zero().lt(sweep.cost) {
                None
            } else {
                match rows_judged(model.rows@, sweep.change, sweep.rows, aim, false, 0) {
                    None => None,
                    Some(driven) => {
                        let drives = match aim {
                            Aim::Fix(q, side) => {
                                let d = lambda[q as int].opposite();
                                match side {
                                    Side::Lower => d.lt(zero()),
                                    Side::Upper => zero().lt(d),
                                }
                            },
                            _ => driven,
                        };
                        if drives {
                            Some(true)
                        } else if sweep.cost.lt(zero()) {
                            Some(false)
                        } else {
                            None
                        }
                    },
                }
            },
        }
    }

    /// A direction from a proof: the trail at the end, and what the check says.
    pub open spec fn direction(
        &self,
        model: Model,
        objective: Objective,
        records: Seq<Record>,
        proofs: Seq<Vec<usize>>,
        weights: Seq<Option<Real>>,
        seed: Option<(usize, Side)>,
        aim: Aim,
        left: usize,
    ) -> (Trail, Option<bool>) {
        let start = Trail {
            weights,
            lambda: Seq::new(model.bounds@.len(), |j: int| zero()),
            touched: Seq::empty(),
            left,
        };
        let (trail, going) = self.walked(model.a@, records, proofs, start, records.len());
        if !going {
            (trail, None)
        } else {
            let end = self.seeded(trail, seed);
            (
                end,
                self.judged(
                    model,
                    objective,
                    end.lambda,
                    end.touched,
                    match seed {
                        Some((q, _)) => Some(q),
                        None => None,
                    },
                    aim,
                ),
            )
        }
    }

    /// Take a direction out of a proof and check it on the model. What is left of
    /// the allowance comes back with the answer.
    pub fn judge_direction(
        &self,
        model: &Model,
        objective: &Objective,
        records: &Vec<Record>,
        proofs: &Vec<Vec<usize>>,
        weights: Vec<Option<Real>>,
        seed: Option<(usize, Side)>,
        aim: Aim,
        left: usize,
    ) -> (r: (Judgement, usize))
        requires
            self.wf(),
            model.wf(),
            objective.wf(),
            objective.c@.len() == model.bounds@.len(),
            records_fit(records@, model.rows@.len(), model.bounds@.len()),
            proofs_fit(proofs@, model.rows@.len(), records@.len()),
            weights@.len() == records@.len(),
            seed matches Some((q, _)) ==> q < model.bounds@.len(),
            aim matches Aim::Fix(q, _) ==> q < model.bounds@.len(),
        ensures
            ({
                let goal = self.direction(
                    *model,
                    *objective,
                    records@,
                    proofs@,
                    weights@,
                    seed,
                    aim,
                    left,
                );
                &&& r.1 == goal.0.left
                &&& match r.0 {
                    Judgement::Refused => goal.1 is None,
                    Judgement::Reaches => goal.1 == Some(true),
                    Judgement::Ray(ray) => goal.1 == Some(false) && ray_of(
                        ray@,
                        goal.0.lambda,
                        goal.0.touched,
                    ),
                }
            }),
    {
        let lambda: Vec<Real> = vec![zero(); model.bounds.len()];
        let mut walk = Walk { weights, lambda, touched: Vec::new(), left };
        proof {
            assert(walk@.lambda =~= Seq::new(model.bounds@.len(), |j: int| zero()));
            assert(walk@.touched =~= Seq::<usize>::empty());
        }
        if !self.walk_proof(model, records, proofs, &mut walk) {
            return (Judgement::Refused, walk.left);
        }
        let mut target: Option<usize> = None;
        match seed {
            Some((q, side)) => {
                let held = walk.lambda[q];
                if held.is_zero() {
                    walk.touched.push(q);
                }
                let step = match side {
                    Side::Lower => one(),
                    Side::Upper => minus_one(),
                };
                walk.lambda.set(q, self.sum_of(held, step));
                target = Some(q);
            },
            None => {},
        }
        let (cost, change, rows): (Real, Vec<Real>, Vec<usize>) = match self.sweep_of(
            model,
            objective,
            &walk.lambda,
            &walk.touched,
            target,
        ) {
            Some(sweep) => sweep,
            None => {
                return (Judgement::Refused, walk.left);
            },
        };
        if !cost.is_finite() || zero().less(cost) {
            return (Judgement::Refused, walk.left);
        }
        let driven = match judge_rows(model, &change, &rows, aim) {
            Some(driven) => driven,
            None => {
                return (Judgement::Refused, walk.left);
            },
        };
        let drives = match aim {
            Aim::Fix(q, side) => {
                let d = walk.lambda[q].neg();
                match side {
                    Side::Lower => d.less(zero()),
                    Side::Upper => zero().less(d),
                }
            },
            _ => driven,
        };
        if drives {
            (Judgement::Reaches, walk.left)
        } else if cost.less(zero()) {
            (Judgement::Ray(list_ray(&walk.lambda, &walk.touched)), walk.left)
        } else {
            (Judgement::Refused, walk.left)
        }
    }
}

/// A direction that moves nothing.
pub open spec fn still(rows: nat) -> Sweep {
    Sweep { cost: zero(), change: Seq::new(rows, |i: int| zero()), rows: Seq::empty() }
}

/// The components of a direction, one for each mention of a variable.
pub open spec fn ray_of(ray: Seq<(usize, Real)>, lambda: Seq<Real>, touched: Seq<usize>) -> bool {
    &&& ray.len() == touched.len()
    &&& forall|k: int|
        0 <= k < ray.len() ==> #[trigger] ray[k] == (
            touched[k],
            lambda[touched[k] as int].opposite(),
        )
}

fn list_ray(lambda: &Vec<Real>, touched: &Vec<usize>) -> (ray: Entries)
    requires
        places_fit(touched@, lambda@.len()),
    ensures
        ray_of(ray@, lambda@, touched@),
{
    let mut ray: Entries = Vec::new();
    let mut k: usize = 0;
    while k < touched.len()
        invariant
            k <= touched@.len(),
            places_fit(touched@, lambda@.len()),
            ray_of(ray@, lambda@, touched@.take(k as int)),
        decreases touched@.len() - k,
    {
        assert(touched@[k as int] < lambda@.len());
        ray.push((touched[k], lambda[touched[k]].neg()));
        k = k + 1;
    }
    assert(touched@.take(k as int) =~= touched@);
    ray
}

} // verus!
