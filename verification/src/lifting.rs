//! The way back through chains of equalities, shifts and folds, and forward again.

use crate::arithmetic::Arithmetic;
use crate::number::{one, zero, Real};
use crate::tape::{self, DoubletonStep, Recovery};
use vstd::prelude::*;

verus! {

/// The steps of a tree speak of columns and rows that exist.
pub open spec fn steps_within(steps: Seq<DoubletonStep>, columns: nat, rows: nat) -> bool {
    forall|k: int|
        0 <= k < steps.len() ==> {
            &&& (#[trigger] steps[k]).column < columns
            &&& steps[k].parent < columns
            &&& steps[k].row < rows
            &&& tape::within(steps[k].entries@, rows)
        }
}

/// Classes of lines that exist, none of them empty.
pub open spec fn classes_within(groups: Seq<Vec<usize>>, n: nat) -> bool {
    forall|g: int|
        0 <= g < groups.len() ==> (#[trigger] groups[g])@.len() > 0 && tape::all_within(
            groups[g]@,
            n,
        )
}

/// The multipliers without those of the first `n` steps.
pub open spec fn columns_cleared(steps: Seq<DoubletonStep>, z: Seq<Real>, n: nat) -> Seq<Real>
    decreases n,
{
    if n == 0 {
        z
    } else {
        columns_cleared(steps, z, (n - 1) as nat).update(steps[n - 1].column as int, zero())
    }
}

/// The multipliers without those of the rows of the first `n` steps.
pub open spec fn rows_emptied(steps: Seq<DoubletonStep>, y: Seq<Real>, n: nat) -> Seq<Real>
    decreases n,
{
    if n == 0 {
        y
    } else {
        rows_emptied(steps, y, (n - 1) as nat).update(steps[n - 1].row as int, zero())
    }
}

/// The first `n` members of a class take a value.
pub open spec fn members_set(class: Seq<usize>, v: Seq<Real>, value: Real, n: nat) -> Seq<Real>
    decreases n,
{
    if n == 0 {
        v
    } else {
        members_set(class, v, value, (n - 1) as nat).update(class[n - 1] as int, value)
    }
}

impl<
    P: Fn(Real, Real) -> Real,
    T: Fn(Real, Real) -> Real,
    D: Fn(Real, Real) -> Real,
    H: Fn(Real, Real) -> Real,
> Arithmetic<P, T, D, H> {
    /// The value that an equality gives to the column of a step.
    pub open spec fn step_value(&self, step: DoubletonStep, x: Seq<Real>, mode: Recovery) -> Real {
        self.quotient(
            self.difference(
                mode.shift(step.rhs),
                self.product(step.other, x[step.parent as int]),
            ),
            step.pivot,
        )
    }

    /// The columns of the first `n` steps, from the root on.
    pub open spec fn regrown(
        &self,
        steps: Seq<DoubletonStep>,
        x: Seq<Real>,
        mode: Recovery,
        n: nat,
    ) -> Seq<Real>
        decreases n,
    {
        if n == 0 {
            x
        } else {
            let before = self.regrown(steps, x, mode, (n - 1) as nat);
            before.update(
                steps[n - 1].column as int,
                self.step_value(steps[n - 1], before, mode),
            )
        }
    }

    /// The multiplier that leaves the column of a step without a reduced cost.
    pub open spec fn step_multiplier(
        &self,
        step: DoubletonStep,
        y: Seq<Real>,
        mode: Recovery,
    ) -> Real {
        let cost = if mode is Solution {
            step.objective
        } else {
            zero()
        };
        self.quotient(self.difference(cost, self.dot(step.entries@, y, None)), step.pivot)
    }

    /// The multipliers of the rows of the steps from place `k` on, the last first.
    pub open spec fn descended(
        &self,
        steps: Seq<DoubletonStep>,
        y: Seq<Real>,
        mode: Recovery,
        k: int,
    ) -> Seq<Real>
        decreases steps.len() - k,
    {
        if k >= steps.len() {
            y
        } else {
            let after = self.descended(steps, y, mode, k + 1);
            after.update(
                steps[k].row as int,
                self.step_multiplier(steps[k], after, mode),
            )
        }
    }

    /// The bound multipliers of the columns of the steps from place `k` on, moved
    /// to their parents, the last first.
    pub open spec fn handed_down(&self, steps: Seq<DoubletonStep>, z: Seq<Real>, k: int) -> Seq<
        Real,
    >
        decreases steps.len() - k,
    {
        if k >= steps.len() {
            z
        } else {
            let after = self.handed_down(steps, z, k + 1);
            let s = steps[k];
            after.update(
                s.parent as int,
                self.sum(
                    after[s.parent as int],
                    self.product(
                        self.quotient(s.other.opposite(), s.pivot),
                        after[s.column as int],
                    ),
                ),
            ).update(s.column as int, zero())
        }
    }

    /// A number of members, counted by ones.
    pub open spec fn members_count(&self, n: nat) -> Real
        decreases n,
    {
        if n == 0 {
            zero()
        } else {
            self.sum(self.members_count((n - 1) as nat), one())
        }
    }

    /// The members of the first `n` classes take the value of the first member of
    /// each, or an equal share of it.
    pub open spec fn classes_spread(
        &self,
        groups: Seq<Vec<usize>>,
        v: Seq<Real>,
        share: bool,
        n: nat,
    ) -> Seq<Real>
        decreases n,
    {
        if n == 0 {
            v
        } else {
            let before = self.classes_spread(groups, v, share, (n - 1) as nat);
            let class = groups[n - 1]@;
            let value = before[class[0] as int];
            members_set(
                class,
                before,
                if share {
                    self.quotient(value, self.members_count(class.len()))
                } else {
                    value
                },
                class.len(),
            )
        }
    }

    /// The values of the first `n` members of a class, added up.
    pub open spec fn members_total(&self, class: Seq<usize>, v: Seq<Real>, n: nat) -> Real
        decreases n,
    {
        if n == 0 {
            zero()
        } else {
            self.sum(
                self.members_total(class, v, (n - 1) as nat),
                v[class[n - 1] as int],
            )
        }
    }

    /// The first member of each of the first `n` classes takes the total of its
    /// class, or the mean; the others have nothing left.
    pub open spec fn classes_gathered(
        &self,
        groups: Seq<Vec<usize>>,
        v: Seq<Real>,
        mean: bool,
        n: nat,
    ) -> Seq<Real>
        decreases n,
    {
        if n == 0 {
            v
        } else {
            let before = self.classes_gathered(groups, v, mean, (n - 1) as nat);
            let class = groups[n - 1]@;
            let total = self.members_total(class, before, class.len());
            members_set(class, before, zero(), class.len()).update(
                class[0] as int,
                if mean {
                    self.quotient(total, self.members_count(class.len()))
                } else {
                    total
                },
            )
        }
    }

    pub(crate) fn climb_steps(&self, x: &mut Vec<Real>, steps: &Vec<DoubletonStep>, mode: Recovery)
        requires
            self.wf(),
            forall|k: int|
                0 <= k < steps@.len() ==> (#[trigger] steps@[k]).column < old(x)@.len()
                    && steps@[k].parent < old(x)@.len(),
        ensures
            final(x)@ == self.regrown(steps@, old(x)@, mode, steps@.len()),
            final(x)@.len() == old(x)@.len(),
    {
        let ghost start = x@;
        let mut n: usize = 0;
        while n < steps.len()
            invariant
                self.wf(),
                n <= steps@.len(),
                x@.len() == start.len(),
                forall|k: int|
                    0 <= k < steps@.len() ==> (#[trigger] steps@[k]).column < x@.len()
                        && steps@[k].parent < x@.len(),
                x@ == self.regrown(steps@, start, mode, n as nat),
            decreases steps@.len() - n,
        {
            let s = &steps[n];
            assert(steps@[n as int].column < x@.len());
            let rest = self.difference_of(
                mode.offset(s.rhs),
                self.product_of(s.other, x[s.parent]),
            );
            let value = self.quotient_of(rest, s.pivot);
            x.set(s.column, value);
            n = n + 1;
        }
    }

    pub(crate) fn descend_steps(
        &self,
        y: &mut Vec<Real>,
        steps: &Vec<DoubletonStep>,
        mode: Recovery,
    )
        requires
            self.wf(),
            forall|k: int|
                0 <= k < steps@.len() ==> (#[trigger] steps@[k]).row < old(y)@.len()
                    && tape::within(steps@[k].entries@, old(y)@.len()),
        ensures
            final(y)@ == self.descended(steps@, old(y)@, mode, 0),
            final(y)@.len() == old(y)@.len(),
    {
        let ghost start = y@;
        let mut k: usize = steps.len();
        while k > 0
            invariant
                self.wf(),
                k <= steps@.len(),
                y@.len() == start.len(),
                forall|k: int|
                    0 <= k < steps@.len() ==> (#[trigger] steps@[k]).row < y@.len()
                        && tape::within(steps@[k].entries@, y@.len()),
                y@ == self.descended(steps@, start, mode, k as int),
            decreases k,
        {
            k = k - 1;
            let s = &steps[k];
            assert(steps@[k as int].row < y@.len());
            let cost = if mode.solution() {
                s.objective
            } else {
                zero()
            };
            let rest = self.difference_of(cost, self.dot_of(&s.entries, y, None));
            let value = self.quotient_of(rest, s.pivot);
            y.set(s.row, value);
        }
    }

    pub(crate) fn hand_down(&self, z: &mut Vec<Real>, steps: &Vec<DoubletonStep>)
        requires
            self.wf(),
            forall|k: int|
                0 <= k < steps@.len() ==> (#[trigger] steps@[k]).column < old(z)@.len()
                    && steps@[k].parent < old(z)@.len(),
        ensures
            final(z)@ == self.handed_down(steps@, old(z)@, 0),
            final(z)@.len() == old(z)@.len(),
    {
        let ghost start = z@;
        let mut k: usize = steps.len();
        while k > 0
            invariant
                self.wf(),
                k <= steps@.len(),
                z@.len() == start.len(),
                forall|k: int|
                    0 <= k < steps@.len() ==> (#[trigger] steps@[k]).column < z@.len()
                        && steps@[k].parent < z@.len(),
                z@ == self.handed_down(steps@, start, k as int),
            decreases k,
        {
            k = k - 1;
            let s = &steps[k];
            assert(steps@[k as int].column < z@.len());
            let slope = self.quotient_of(s.other.neg(), s.pivot);
            let moved = self.product_of(slope, z[s.column]);
            let value = self.sum_of(z[s.parent], moved);
            z.set(s.parent, value);
            z.set(s.column, zero());
        }
    }

    pub(crate) fn clear_columns(&self, z: &mut Vec<Real>, steps: &Vec<DoubletonStep>)
        requires
            forall|k: int|
                0 <= k < steps@.len() ==> (#[trigger] steps@[k]).column < old(z)@.len(),
        ensures
            final(z)@ == columns_cleared(steps@, old(z)@, steps@.len()),
            final(z)@.len() == old(z)@.len(),
    {
        let ghost start = z@;
        let mut n: usize = 0;
        while n < steps.len()
            invariant
                n <= steps@.len(),
                z@.len() == start.len(),
                forall|k: int| 0 <= k < steps@.len() ==> (#[trigger] steps@[k]).column < z@.len(),
                z@ == columns_cleared(steps@, start, n as nat),
            decreases steps@.len() - n,
        {
            assert(steps@[n as int].column < z@.len());
            z.set(steps[n].column, zero());
            n = n + 1;
        }
    }

    pub(crate) fn empty_step_rows(&self, y: &mut Vec<Real>, steps: &Vec<DoubletonStep>)
        requires
            forall|k: int| 0 <= k < steps@.len() ==> (#[trigger] steps@[k]).row < old(y)@.len(),
        ensures
            final(y)@ == rows_emptied(steps@, old(y)@, steps@.len()),
            final(y)@.len() == old(y)@.len(),
    {
        let ghost start = y@;
        let mut n: usize = 0;
        while n < steps.len()
            invariant
                n <= steps@.len(),
                y@.len() == start.len(),
                forall|k: int| 0 <= k < steps@.len() ==> (#[trigger] steps@[k]).row < y@.len(),
                y@ == rows_emptied(steps@, start, n as nat),
            decreases steps@.len() - n,
        {
            assert(steps@[n as int].row < y@.len());
            y.set(steps[n].row, zero());
            n = n + 1;
        }
    }

    fn count_members(&self, n: usize) -> (r: Real)
        requires
            self.wf(),
        ensures
            r == self.members_count(n as nat),
    {
        let mut r = zero();
        let mut k: usize = 0;
        while k < n
            invariant
                self.wf(),
                k <= n,
                r == self.members_count(k as nat),
            decreases n - k,
        {
            r = self.sum_of(r, one());
            k = k + 1;
        }
        r
    }

    fn set_members(&self, v: &mut Vec<Real>, class: &Vec<usize>, value: Real)
        requires
            tape::all_within(class@, old(v)@.len()),
        ensures
            final(v)@ == members_set(class@, old(v)@, value, class@.len()),
            final(v)@.len() == old(v)@.len(),
    {
        let ghost start = v@;
        let mut k: usize = 0;
        while k < class.len()
            invariant
                k <= class@.len(),
                v@.len() == start.len(),
                tape::all_within(class@, v@.len()),
                v@ == members_set(class@, start, value, k as nat),
            decreases class@.len() - k,
        {
            assert(class@[k as int] < v@.len());
            v.set(class[k], value);
            k = k + 1;
        }
    }

    pub(crate) fn spread_classes(&self, v: &mut Vec<Real>, groups: &Vec<Vec<usize>>, share: bool)
        requires
            self.wf(),
            classes_within(groups@, old(v)@.len()),
        ensures
            final(v)@ == self.classes_spread(groups@, old(v)@, share, groups@.len()),
            final(v)@.len() == old(v)@.len(),
    {
        let ghost start = v@;
        let mut g: usize = 0;
        while g < groups.len()
            invariant
                self.wf(),
                g <= groups@.len(),
                v@.len() == start.len(),
                classes_within(groups@, v@.len()),
                v@ == self.classes_spread(groups@, start, share, g as nat),
            decreases groups@.len() - g,
        {
            let class = &groups[g];
            assert(groups@[g as int]@.len() > 0);
            assert(class@[0] < v@.len());
            let whole = v[class[0]];
            let value = if share {
                self.quotient_of(whole, self.count_members(class.len()))
            } else {
                whole
            };
            self.set_members(v, class, value);
            g = g + 1;
        }
    }

    pub(crate) fn gather_classes(&self, v: &mut Vec<Real>, groups: &Vec<Vec<usize>>, mean: bool)
        requires
            self.wf(),
            classes_within(groups@, old(v)@.len()),
        ensures
            final(v)@ == self.classes_gathered(groups@, old(v)@, mean, groups@.len()),
            final(v)@.len() == old(v)@.len(),
    {
        let ghost start = v@;
        let mut g: usize = 0;
        while g < groups.len()
            invariant
                self.wf(),
                g <= groups@.len(),
                v@.len() == start.len(),
                classes_within(groups@, v@.len()),
                v@ == self.classes_gathered(groups@, start, mean, g as nat),
            decreases groups@.len() - g,
        {
            let class = &groups[g];
            let ghost before = v@;
            assert(groups@[g as int]@.len() > 0);
            let mut total = zero();
            let mut k: usize = 0;
            while k < class.len()
                invariant
                    self.wf(),
                    k <= class@.len(),
                    tape::all_within(class@, v@.len()),
                    v@ == before,
                    total == self.members_total(class@, before, k as nat),
                decreases class@.len() - k,
            {
                assert(class@[k as int] < v@.len());
                total = self.sum_of(total, v[class[k]]);
                k = k + 1;
            }
            assert(class@[0] < v@.len());
            let value = if mean {
                self.quotient_of(total, self.count_members(class.len()))
            } else {
                total
            };
            self.set_members(v, class, zero());
            v.set(class[0], value);
            g = g + 1;
        }
    }

    /// The columns of the first steps take back the values of a point that
    /// satisfies their equalities.
    proof fn regrown_so_far(
        &self,
        steps: Seq<DoubletonStep>,
        p: Seq<Real>,
        q: Seq<Real>,
        mode: Recovery,
        n: nat,
    )
        requires
            n <= steps.len(),
            p.len() == q.len(),
            self.restorable(steps, p, q, mode),
        ensures
            self.regrown(steps, q, mode, n).len() == p.len(),
            forall|j: int|
                0 <= j < p.len() && (forall|k: int|
                    n <= k < steps.len() ==> (#[trigger] steps[k]).column != j)
                    ==> #[trigger] self.regrown(steps, q, mode, n)[j] == p[j],
        decreases n,
    {
        if n > 0 {
            self.regrown_so_far(steps, p, q, mode, (n - 1) as nat);
            let before = self.regrown(steps, q, mode, (n - 1) as nat);
            let s = steps[n - 1];
            assert(before[s.parent as int] == p[s.parent as int]);
            assert forall|j: int|
                0 <= j < p.len() && (forall|k: int|
                    n <= k < steps.len() ==> (
                    #[trigger] steps[k]).column != j) implies #[trigger] self.regrown(
                steps,
                q,
                mode,
                n,
            )[j] == p[j] by {
                if j != s.column {
                    assert(before[j] == p[j]);
                }
            }
        }
    }

    /// The second point agrees with the first outside the columns of the steps,
    /// the first satisfies the equalities, and no step leans on a column that a
    /// later step fills.
    pub open spec fn restorable(
        &self,
        steps: Seq<DoubletonStep>,
        p: Seq<Real>,
        q: Seq<Real>,
        mode: Recovery,
    ) -> bool {
        &&& forall|k: int|
            0 <= k < steps.len() ==> {
                &&& (#[trigger] steps[k]).column < p.len()
                &&& steps[k].parent < p.len()
                &&& p[steps[k].column as int] == self.step_value(steps[k], p, mode)
            }
        &&& forall|i: int, k: int|
            0 <= i <= k < steps.len() ==> (#[trigger] steps[k]).column != (
            #[trigger] steps[i]).parent
        &&& forall|j: int|
            0 <= j < p.len() && (forall|k: int|
                0 <= k < steps.len() ==> (#[trigger] steps[k]).column != j) ==> #[trigger] q[j]
                == p[j]
    }

    /// Going back through a tree restores every point that satisfies the
    /// equalities of the tree, whatever the eliminated columns hold.
    pub proof fn trees_give_back_points(
        &self,
        steps: Seq<DoubletonStep>,
        p: Seq<Real>,
        q: Seq<Real>,
        mode: Recovery,
    )
        requires
            p.len() == q.len(),
            self.restorable(steps, p, q, mode),
        ensures
            self.regrown(steps, q, mode, steps.len()) == p,
    {
        self.regrown_so_far(steps, p, q, mode, steps.len());
        assert(self.regrown(steps, q, mode, steps.len()) =~= p);
    }
}

} // verus!
