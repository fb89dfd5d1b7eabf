//! Proofs that end a run: combinations of rows without a feasible point, and
//! directions in which the objective falls forever.

use crate::arithmetic::Arithmetic;
use crate::bounds::RowDomain;
use crate::classify;
use crate::classify::{Growth, Membership};
use crate::blocks;
use crate::linked::Entries;
use crate::listing;
use crate::linked;
use crate::model::Model;
use crate::number::{zero, Real};
use crate::pivots::capped_sum;
use crate::simplify;
use crate::sparsify;
use crate::tape;
use crate::tape::Point;
use vstd::prelude::*;

verus! {

/// Values with entries written into them, from place `k` of the list on.
pub open spec fn written(values: Seq<Real>, list: Seq<(usize, Real)>, k: int) -> Seq<Real>
    decreases list.len() - k,
{
    if k >= list.len() {
        values
    } else {
        written(values.update(list[k].0 as int, list[k].1), list, k + 1)
    }
}

fn write_into(values: &mut Vec<Real>, list: &Entries)
    requires
        forall|k: int| 0 <= k < list@.len() ==> (#[trigger] list@[k]).0 < old(values)@.len(),
    ensures
        final(values)@ == written(old(values)@, list@, 0),
        final(values)@.len() == old(values)@.len(),
{
    let mut k: usize = 0;
    while k < list.len()
        invariant
            k <= list@.len(),
            values@.len() == old(values)@.len(),
            forall|k: int| 0 <= k < list@.len() ==> (#[trigger] list@[k]).0 < old(values)@.len(),
            written(old(values)@, list@, 0) == written(values@, list@, k as int),
        decreases list@.len() - k,
    {
        assert(list@[k as int].0 < values@.len());
        values.set(list[k].0, list[k].1);
        k = k + 1;
    }
}

impl Model {
    /// A point with these multipliers of rows and nothing else.
    pub fn primal_certificate(&self, y: &Entries) -> (point: Point)
        requires
            forall|k: int| 0 <= k < y@.len() ==> (#[trigger] y@[k]).0 < self.rows@.len(),
        ensures
            point.x@ == tape::zeros(self.bounds@.len()),
            point.y@ == written(tape::zeros(self.rows@.len()), y@, 0),
            point.z@ == tape::zeros(self.bounds@.len()),
    {
        let mut point = Point::zeros(self.bounds.len(), self.rows.len());
        write_into(&mut point.y, y);
        point
    }

    /// A point with this direction of the variables and nothing else.
    pub fn dual_certificate(&self, x: &Entries) -> (point: Point)
        requires
            forall|k: int| 0 <= k < x@.len() ==> (#[trigger] x@[k]).0 < self.bounds@.len(),
        ensures
            point.x@ == written(tape::zeros(self.bounds@.len()), x@, 0),
            point.y@ == tape::zeros(self.rows@.len()),
            point.z@ == tape::zeros(self.bounds@.len()),
    {
        let mut point = Point::zeros(self.bounds.len(), self.rows.len());
        write_into(&mut point.x, x);
        point
    }

    /// The lengths of the rows that wait for propagation, from place `k` on,
    /// unless they exceed an allowance.
    pub open spec fn round_cost(&self, rows: Seq<usize>, allowance: usize, cost: int, k: int) -> Option<
        int,
    >
        decreases rows.len() - k,
    {
        if k >= rows.len() {
            Some(cost)
        } else {
            let more = if rows[k] < self.rows@.len() {
                sparsify::capped(
                    cost + linked::line_items(self.a@, false, rows[k] as int).len(),
                )
            } else {
                cost
            };
            if more > allowance {
                None
            } else {
                self.round_cost(rows, allowance, more, k + 1)
            }
        }
    }

    /// What another round of propagation would visit, if the allowance covers it.
    pub fn propagation_cost(&self, allowance: usize) -> (cost: Option<usize>)
        requires
            self.wf(),
        ensures
            match cost {
                Some(n) => self.round_cost(
                    self.queues.changed_activities.propagation(),
                    allowance,
                    0,
                    0,
                ) == Some(n as int) && n <= allowance,
                None => self.round_cost(
                    self.queues.changed_activities.propagation(),
                    allowance,
                    0,
                    0,
                ) is None,
            },
    {
        let rows = self.queues.changed_activities.iter();
        let mut cost: usize = 0;
        let mut k: usize = 0;
        while k < rows.len()
            invariant
                k <= rows@.len(),
                self.wf(),
                rows@ == self.queues.changed_activities.propagation(),
                cost <= allowance,
                self.round_cost(rows@, allowance, 0, 0) == self.round_cost(
                    rows@,
                    allowance,
                    cost as int,
                    k as int,
                ),
            decreases rows@.len() - k,
        {
            let i: usize = rows[k];
            if i < self.rows.len() {
                let more: usize = capped_sum(cost, self.a.row(i).len());
                if more > allowance {
                    return None;
                }
                cost = more;
            }
            k = k + 1;
        }
        Some(cost)
    }
}

impl<
    P: Fn(Real, Real) -> Real,
    T: Fn(Real, Real) -> Real,
    D: Fn(Real, Real) -> Real,
    H: Fn(Real, Real) -> Real,
> Arithmetic<P, T, D, H> {
    /// Minus a multiple of the entries.
    pub open spec fn countered(&self, entries: Seq<(usize, Real)>, multiplier: Real) -> Seq<
        (usize, Real),
    > {
        Seq::new(
            entries.len(),
            |k: int| (entries[k].0, self.product(entries[k].1.opposite(), multiplier)),
        )
    }

    /// The proof that a row alone has no feasible point: its multiplier, and
    /// multipliers of the bounds that cancel it.
    pub fn row_certificate(&self, model: &Model, row: usize, multiplier: Real) -> (point: Point)
        requires
            self.wf(),
            model.wf(),
            row < model.rows@.len(),
        ensures
            point.x@ == tape::zeros(model.bounds@.len()),
            point.y@ == tape::zeros(model.rows@.len()).update(row as int, multiplier),
            point.z@ == written(
                tape::zeros(model.bounds@.len()),
                self.countered(listing::line(model.a@, false, row as int), multiplier),
                0,
            ),
    {
        let mut point = Point::zeros(model.bounds.len(), model.rows.len());
        point.y.set(row, multiplier);
        let entries = model.row_entries(row);
        let mut list: Entries = Vec::new();
        let mut k: usize = 0;
        while k < entries.len()
            invariant
                k <= entries@.len(),
                self.wf(),
                list@.len() == k,
                forall|t: int|
                    0 <= t < k ==> #[trigger] list@[t] == (
                        entries@[t].0,
                        self.product(entries@[t].1.opposite(), multiplier),
                    ),
            decreases entries@.len() - k,
        {
            list.push((entries[k].0, self.product_of(entries[k].1.neg(), multiplier)));
            k = k + 1;
        }
        assert(list@ =~= self.countered(entries@, multiplier));
        assert forall|k: int| 0 <= k < list@.len() implies (#[trigger] list@[k]).0
            < model.bounds@.len() by {
            assert(entries@[k].0 < model.bounds@.len());
        }
        write_into(&mut point.z, &list);
        point
    }

    /// The value of a row at a point, from place `k` of its entries on.
    pub open spec fn row_value(
        &self,
        entries: Seq<(usize, Real)>,
        x: Seq<Real>,
        sum: Real,
        k: int,
    ) -> Real
        decreases entries.len() - k,
    {
        if k >= entries.len() {
            sum
        } else {
            self.row_value(
                entries,
                x,
                self.sum(sum, self.product(entries[k].1, x[entries[k].0 as int])),
                k + 1,
            )
        }
    }

    fn value_at_point(&self, model: &Model, i: usize, x: &Vec<Real>) -> (v: Real)
        requires
            self.wf(),
            model.wf(),
            i < model.rows@.len(),
            x@.len() == model.bounds@.len(),
        ensures
            v == self.row_value(listing::line(model.a@, false, i as int), x@, zero(), 0),
    {
        let entries = model.row_entries(i);
        let mut sum = zero();
        let mut k: usize = 0;
        while k < entries.len()
            invariant
                k <= entries@.len(),
                self.wf(),
                x@.len() == model.bounds@.len(),
                forall|t: int|
                    0 <= t < entries@.len() ==> (#[trigger] entries@[t]).0 < model.bounds@.len(),
                self.row_value(entries@, x@, zero(), 0) == self.row_value(
                    entries@,
                    x@,
                    sum,
                    k as int,
                ),
            decreases entries@.len() - k,
        {
            assert(entries@[k as int].0 < x@.len());
            sum = self.sum_of(sum, self.product_of(entries[k].1, x[entries[k].0]));
            k = k + 1;
        }
        sum
    }

    /// The point of live variables nearest to zero.
    pub open spec fn nearest(&self, model: Model) -> Seq<Real> {
        Seq::new(
            model.bounds@.len(),
            |j: int|
                if model.alive@[j] {
                    zero().larger(model.bounds@[j].lower).smaller(model.bounds@[j].upper)
                } else {
                    zero()
                },
        )
    }

    /// The slack of a cone row at a point.
    pub open spec fn slack_at(&self, model: Model, i: int, x: Seq<Real>) -> Real {
        self.difference(
            crate::cones::rhs_of(model.rows@[i]),
            self.row_value(listing::line(model.a@, false, i), x, zero(), 0),
        )
    }

    /// A linear row holds at a point.
    pub open spec fn row_holds(&self, model: Model, i: int, x: Seq<Real>) -> bool {
        model.rows@[i] matches RowDomain::Linear(b) ==> b.holds(
            self.row_value(listing::line(model.a@, false, i), x, zero(), 0),
        )
    }

    /// A cone block holds at a point: its live rows have their slacks inside.
    pub open spec fn block_holds<L: Fn(Real) -> Real, E: Fn(Real) -> Real>(
        &self,
        growth: Growth<L, E>,
        model: Model,
        block: int,
        x: Seq<Real>,
    ) -> bool {
        let rows = simplify::live(model, block as usize);
        let slacks = Seq::new(rows.len(), |k: int| self.slack_at(model, rows[k] as int, x));
        rows.len() > 0 ==> rows.len() == model.cones@[block].size() && blocks::measures(
            model.cones@[block],
            rows.len(),
        ) && self.classified(growth, model.cones@[block], slacks, zero())
            == classify::Verdict::Inside
    }

    /// The point of live variables nearest to zero, if it satisfies every row and
    /// block of the model.
    pub fn feasible_point<L: Fn(Real) -> Real, E: Fn(Real) -> Real>(
        &self,
        model: &Model,
        growth: &Growth<L, E>,
    ) -> (r: Option<Vec<Real>>)
        requires
            self.wf(),
            growth.wf(),
            model.wf(),
            simplify::blocks_wf(*model),
            model.cones@.len() <= usize::MAX,
        ensures
            ({
                let x = self.nearest(*model);
                let holds = (forall|i: int|
                    0 <= i < model.rows@.len() ==> #[trigger] self.row_holds(*model, i, x)) && (
                forall|b: int|
                    0 <= b < model.cones@.len() ==> #[trigger] self.block_holds(
                        *growth,
                        *model,
                        b,
                        x,
                    ));
                match r {
                    Some(point) => holds && point@ == x,
                    None => !holds,
                }
            }),
    {
        let mut x: Vec<Real> = Vec::new();
        let mut j: usize = 0;
        while j < model.bounds.len()
            invariant
                j <= model.bounds@.len(),
                model.wf(),
                x@.len() == j,
                forall|t: int|
                    0 <= t < j ==> #[trigger] x@[t] == (if model.alive@[t] {
                        zero().larger(model.bounds@[t].lower).smaller(model.bounds@[t].upper)
                    } else {
                        zero()
                    }),
            decreases model.bounds@.len() - j,
        {
            let b = model.bounds[j];
            x.push(
                if model.alive[j] {
                    zero().max(b.lower).min(b.upper)
                } else {
                    zero()
                },
            );
            j = j + 1;
        }
        assert(x@ =~= self.nearest(*model));
        let mut i: usize = 0;
        while i < model.rows.len()
            invariant
                i <= model.rows@.len(),
                self.wf(),
                model.wf(),
                x@ == self.nearest(*model),
                forall|t: int| 0 <= t < i ==> #[trigger] self.row_holds(*model, t, x@),
            decreases model.rows@.len() - i,
        {
            if let RowDomain::Linear(b) = model.rows[i] {
                let v = self.value_at_point(model, i, &x);
                if !b.contains(v) {
                    assert(!self.row_holds(*model, i as int, x@));
                    return None;
                }
            }
            assert(self.row_holds(*model, i as int, x@));
            i = i + 1;
        }
        let mut block: usize = 0;
        while block < model.cones.len()
            invariant
                block <= model.cones@.len(),
                self.wf(),
                growth.wf(),
                model.wf(),
                simplify::blocks_wf(*model),
                x@ == self.nearest(*model),
                forall|t: int| 0 <= t < model.rows@.len() ==> #[trigger] self.row_holds(*model, t, x@),
                forall|t: int|
                    0 <= t < block ==> #[trigger] self.block_holds(*growth, *model, t, x@),
            decreases model.cones@.len() - block,
        {
            let rows = model.live_rows(block);
            proof {
                let listed = model.cone_rows@[block as int]@;
                assert forall|k: int| 0 <= k < listed.len() implies (#[trigger] listed[k])
                    < model.rows@.len() by {
                    assert(model.cone_rows@[block as int]@[k] < model.rows@.len());
                }
                simplify::live_rows_are_listed(model.rows@, listed, block);
            }
            if rows.len() > 0 {
                let cone = model.cones[block];
                let mut slacks: Vec<Real> = Vec::new();
                let mut k: usize = 0;
                while k < rows.len()
                    invariant
                        k <= rows@.len(),
                        self.wf(),
                        model.wf(),
                        x@.len() == model.bounds@.len(),
                        slacks@.len() == k,
                        forall|t: int|
                            0 <= t < rows@.len() ==> (#[trigger] rows@[t]) < model.rows@.len(),
                        forall|t: int|
                            0 <= t < k ==> #[trigger] slacks@[t] == self.slack_at(
                                *model,
                                rows@[t] as int,
                                x@,
                            ),
                    decreases rows@.len() - k,
                {
                    let row: usize = rows[k];
                    assert(rows@[k as int] < model.rows@.len());
                    let v = self.value_at_point(model, row, &x);
                    slacks.push(self.difference_of(model.cone_rhs(row), v));
                    k = k + 1;
                }
                let ghost goal = Seq::new(
                    rows@.len(),
                    |k: int| self.slack_at(*model, rows@[k] as int, x@),
                );
                assert(slacks@ =~= goal);
                let fits = blocks::has_size(cone, rows.len()) && blocks::can_measure(
                    cone,
                    rows.len(),
                );
                let mut inside = false;
                if fits {
                    inside =
                    match self.classify(growth, cone, &slacks, zero()) {
                        Membership::Inside => true,
                        _ => false,
                    };
                }
                if !inside {
                    assert(!self.block_holds(*growth, *model, block as int, x@));
                    return None;
                }
            }
            assert(self.block_holds(*growth, *model, block as int, x@));
            block = block + 1;
        }
        Some(x)
    }
}

} // verus!
