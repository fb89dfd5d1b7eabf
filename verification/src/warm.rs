//! Forward mapping of native primal and dual coordinates through a tape.

use crate::arithmetic::Arithmetic;
use crate::linked::Entries;
use crate::lifting;
use crate::number::{zero, Real};
use crate::recovery;
use crate::tape::{self, Point, Rule, State, HALF};
use vstd::prelude::*;

verus! {

impl<
    P: Fn(Real, Real) -> Real,
    T: Fn(Real, Real) -> Real,
    D: Fn(Real, Real) -> Real,
    H: Fn(Real, Real) -> Real,
> Arithmetic<P, T, D, H> {
    /// The multiplier of an eliminated column spread over the other columns of
    /// its equation.
    pub open spec fn spread(
        &self,
        z: Seq<Real>,
        entries: Seq<(usize, Real)>,
        column: usize,
        multiplier: Real,
        a: Real,
    ) -> Seq<Real>
        decreases entries.len(),
    {
        if entries.len() == 0 {
            z
        } else {
            let before = self.spread(z, entries.drop_last(), column, multiplier, a);
            let (j, b) = entries.last();
            if j == column {
                before
            } else {
                before.update(
                    j as int,
                    self.difference(
                        before[j as int],
                        self.quotient(self.product(b, multiplier), a),
                    ),
                )
            }
        }
    }

    fn spread_over(
        &self,
        z: &mut Vec<Real>,
        entries: &Entries,
        column: usize,
        multiplier: Real,
        a: Real,
    )
        requires
            self.wf(),
            tape::within(entries@, old(z)@.len()),
        ensures
            final(z)@ == self.spread(old(z)@, entries@, column, multiplier, a),
            final(z)@.len() == old(z)@.len(),
    {
        let ghost start = z@;
        let mut k: usize = 0;
        assert(entries@.take(0) =~= Seq::<(usize, Real)>::empty());
        while k < entries.len()
            invariant
                k <= entries@.len(),
                self.wf(),
                z@.len() == start.len(),
                tape::within(entries@, z@.len()),
                z@ == self.spread(start, entries@.take(k as int), column, multiplier, a),
            decreases entries@.len() - k,
        {
            let (j, b): (usize, Real) = entries[k];
            assert(entries@[k as int].0 < z@.len());
            assert(entries@.take(k + 1).drop_last() =~= entries@.take(k as int));
            if j != column {
                let share = self.quotient_of(self.product_of(b, multiplier), a);
                let value = self.difference_of(z[j], share);
                z.set(j, value);
            }
            k = k + 1;
        }
        assert(entries@.take(k as int) =~= entries@);
    }

    /// Multipliers after a row handed a multiple of its own to each listed row.
    pub open spec fn shared(&self, y: Seq<Real>, row: int, list: Seq<(usize, Real)>) -> Seq<Real>
        decreases list.len(),
    {
        if list.len() == 0 {
            y
        } else {
            let before = self.shared(y, row, list.drop_last());
            let (j, a) = list.last();
            before.update(
                j as int,
                self.sum(before[j as int], self.product(a, before[row])),
            )
        }
    }

    fn share(&self, y: &mut Vec<Real>, row: usize, list: &Entries)
        requires
            self.wf(),
            row < old(y)@.len(),
            tape::within(list@, old(y)@.len()),
        ensures
            final(y)@ == self.shared(old(y)@, row as int, list@),
            final(y)@.len() == old(y)@.len(),
    {
        let ghost start = y@;
        let mut k: usize = 0;
        assert(list@.take(0) =~= Seq::<(usize, Real)>::empty());
        while k < list.len()
            invariant
                k <= list@.len(),
                self.wf(),
                row < y@.len(),
                y@.len() == start.len(),
                tape::within(list@, y@.len()),
                y@ == self.shared(start, row as int, list@.take(k as int)),
            decreases list@.len() - k,
        {
            let (j, a): (usize, Real) = list[k];
            assert(list@[k as int].0 < y@.len());
            assert(list@.take(k + 1).drop_last() =~= list@.take(k as int));
            let moved = self.product_of(a, y[row]);
            let value = self.sum_of(y[j], moved);
            y.set(j, value);
            k = k + 1;
        }
        assert(list@.take(k as int) =~= list@);
    }

    /// One rule applied to a point of the original coordinates.
    pub open spec fn carried(&self, rule: Rule, st: State) -> State {
        match rule {
            Rule::ConeSlack { .. } => st,
            Rule::PsdZeroFace { rows, order } => State {
                y: recovery::diagonal_cleared(st.y, rows@, order as nat),
                ..st
            },
            Rule::SocToLinear { head, tail } => {
                let a = st.y[head as int];
                let b = st.y[tail as int];
                let half = Real { bits: HALF };
                State {
                    y: st.y.update(head as int, self.product(half, self.sum(a, b))).update(
                        tail as int,
                        self.product(half, self.difference(a, b)),
                    ),
                    ..st
                }
            },
            Rule::SocFace { head, .. } => State { y: st.y.update(head as int, zero()), ..st },
            Rule::RowCombination { reference, targets, activity } => {
                let y = self.transferred(st.y, reference as int, targets@, false);
                match activity {
                    Some((j, terms)) => State {
                        x: st.x.update(j as int, self.dot(terms@, st.x, None)),
                        z: st.z.update(j as int, st.y[reference as int]),
                        y,
                        ..st
                    },
                    None => State { y, ..st },
                }
            },
            Rule::Fixed { column, value, .. } => State {
                x: st.x.update(column as int, value),
                z: st.z.update(column as int, zero()),
                ..st
            },
            Rule::Substituted { column, equation, retained, .. } => {
                let a = equation.coefficient_of(column);
                let z = st.z[column as int];
                let row = equation.row as int;
                if retained {
                    State {
                        y: st.y.update(row, self.quotient(z.opposite(), a)),
                        z: st.z.update(column as int, zero()),
                        ..st
                    }
                } else {
                    State {
                        y: st.y.update(row, zero()),
                        z: self.spread(st.z, equation.entries@, column, z, a).update(
                            column as int,
                            zero(),
                        ),
                        ..st
                    }
                }
            },
            Rule::TightenedBound { column, equation, .. } => if equation.entries@.len() == 1 {
                let row = equation.row as int;
                State {
                    z: st.z.update(
                        column as int,
                        self.sum(
                            st.z[column as int],
                            self.product(equation.coefficient_of(column), st.y[row]),
                        ),
                    ),
                    y: st.y.update(row, zero()),
                    ..st
                }
            } else {
                st
            },
            Rule::DependentRow { row, coefficients } => State {
                y: self.shared(st.y, row as int, coefficients@).update(row as int, zero()),
                ..st
            },
            Rule::DeletedRow(row) => State { y: st.y.update(row as int, zero()), ..st },
            Rule::MergedRow { keep, removed, ratio } => State {
                y: st.y.update(
                    keep as int,
                    self.sum(
                        st.y[keep as int],
                        self.quotient(st.y[removed as int], ratio),
                    ),
                ).update(removed as int, zero()),
                ..st
            },
            Rule::TightenedRow { row, source, ratio, side } => {
                let y = self.quotient(st.y[source as int], ratio);
                if side.presses(y) {
                    State {
                        y: st.y.update(row as int, self.sum(st.y[row as int], y)).update(
                            source as int,
                            zero(),
                        ),
                        ..st
                    }
                } else {
                    st
                }
            },
            Rule::ParallelColumns { keep, removed, ratio, .. } => State {
                x: st.x.update(
                    keep as int,
                    self.sum(
                        st.x[keep as int],
                        self.product(ratio, st.x[removed as int]),
                    ),
                ),
                z: st.z.update(removed as int, zero()),
                ..st
            },
            Rule::Unlocked { column, rows, .. } => State {
                z: st.z.update(column as int, zero()),
                y: recovery::rows_cleared(st.y, rows@),
                ..st
            },
            Rule::DoubletonChain { steps } => State {
                y: lifting::rows_emptied(steps@, st.y, steps@.len()),
                z: self.handed_down(steps@, st.z, 0),
                ..st
            },
            Rule::BoundShift { column, other, row, pivot, slope, offset } => {
                let (j, k, i) = (column as int, other as int, row as int);
                State {
                    x: st.x.update(
                        j,
                        self.difference(
                            self.difference(st.x[j], self.product(slope, st.x[k])),
                            offset,
                        ),
                    ),
                    y: st.y.update(i, zero()),
                    z: st.z.update(k, self.sum(st.z[k], self.product(slope, st.z[j]))).update(
                        j,
                        self.sum(st.z[j], self.product(pivot, st.y[i])),
                    ),
                    ..st
                }
            },
            Rule::LpFold { columns, rows } => State {
                x: self.classes_gathered(columns@, st.x, true, columns@.len()),
                y: self.classes_gathered(rows@, st.y, false, rows@.len()),
                z: self.classes_gathered(columns@, st.z, false, columns@.len()),
                ..st
            },
            Rule::Eliminated { column, .. } => State {
                z: st.z.update(column as int, zero()),
                ..st
            },
        }
    }

    /// All rules applied, the first one first.
    pub open spec fn reduced(&self, rules: Seq<Rule>, st: State) -> State
        decreases rules.len(),
    {
        if rules.len() == 0 {
            st
        } else {
            self.carried(rules.last(), self.reduced(rules.drop_last(), st))
        }
    }

    /// Apply one rule to a point.
    pub fn carry(&self, rule: &Rule, point: &mut Point)
        requires
            self.wf(),
            old(point).z@.len() == old(point).x@.len(),
            tape::rule_fits(*rule, old(point).x@.len(), old(point).y@.len()),
        ensures
            recovery::state(*final(point), Seq::<Real>::empty()) == self.carried(
                *rule,
                recovery::state(*old(point), Seq::<Real>::empty()),
            ),
            final(point).x@.len() == old(point).x@.len(),
            final(point).y@.len() == old(point).y@.len(),
            final(point).z@.len() == old(point).z@.len(),
    {
        let ghost start = recovery::state(*point, Seq::<Real>::empty());
        match rule {
            Rule::ConeSlack { .. } => {},
            Rule::PsdZeroFace { rows, order } => {
                self.clear_diagonal(&mut point.y, rows, *order);
            },
            Rule::SocToLinear { head, tail } => {
                let a = point.y[*head];
                let b = point.y[*tail];
                let half = Real::from_bits(HALF);
                let sum = self.product_of(half, self.sum_of(a, b));
                let difference = self.product_of(half, self.difference_of(a, b));
                point.y.set(*head, sum);
                point.y.set(*tail, difference);
            },
            Rule::SocFace { head, .. } => {
                point.y.set(*head, zero());
            },
            Rule::RowCombination { reference, targets, activity } => {
                match activity {
                    Some((j, terms)) => {
                        let value = self.dot_of(terms, &point.x, None);
                        let y = point.y[*reference];
                        point.x.set(*j, value);
                        point.z.set(*j, y);
                    },
                    None => {},
                }
                self.transfer(&mut point.y, *reference, targets, false);
            },
            Rule::Fixed { column, value, .. } => {
                point.x.set(*column, *value);
                point.z.set(*column, zero());
            },
            Rule::Substituted { column, equation, retained, .. } => {
                let a = equation.coefficient(*column);
                let z = point.z[*column];
                if *retained {
                    let y = self.quotient_of(z.neg(), a);
                    point.y.set(equation.row, y);
                } else {
                    point.y.set(equation.row, zero());
                    self.spread_over(&mut point.z, &equation.entries, *column, z, a);
                }
                point.z.set(*column, zero());
            },
            Rule::TightenedBound { column, equation, .. } => {
                if equation.entries.len() == 1 {
                    let a = equation.coefficient(*column);
                    let moved = self.product_of(a, point.y[equation.row]);
                    let z = self.sum_of(point.z[*column], moved);
                    point.z.set(*column, z);
                    point.y.set(equation.row, zero());
                }
            },
            Rule::DependentRow { row, coefficients } => {
                self.share(&mut point.y, *row, coefficients);
                point.y.set(*row, zero());
            },
            Rule::DeletedRow(row) => {
                point.y.set(*row, zero());
            },
            Rule::MergedRow { keep, removed, ratio } => {
                let moved = self.quotient_of(point.y[*removed], *ratio);
                let y = self.sum_of(point.y[*keep], moved);
                point.y.set(*keep, y);
                point.y.set(*removed, zero());
            },
            Rule::TightenedRow { row, source, ratio, side } => {
                let y = self.quotient_of(point.y[*source], *ratio);
                if side.used(y) {
                    let total = self.sum_of(point.y[*row], y);
                    point.y.set(*row, total);
                    point.y.set(*source, zero());
                }
            },
            Rule::ParallelColumns { keep, removed, ratio, .. } => {
                let moved = self.product_of(*ratio, point.x[*removed]);
                let x = self.sum_of(point.x[*keep], moved);
                point.x.set(*keep, x);
                point.z.set(*removed, zero());
            },
            Rule::Unlocked { column, rows, .. } => {
                point.z.set(*column, zero());
                self.clear_rows(&mut point.y, rows);
            },
            Rule::DoubletonChain { steps } => {
                self.empty_step_rows(&mut point.y, steps);
                self.hand_down(&mut point.z, steps);
            },
            Rule::BoundShift { column, other, row, pivot, slope, offset } => {
                let moved = self.product_of(*slope, point.x[*other]);
                let x = self.difference_of(self.difference_of(point.x[*column], moved), *offset);
                let z = self.sum_of(
                    point.z[*column],
                    self.product_of(*pivot, point.y[*row]),
                );
                let rest = self.sum_of(
                    point.z[*other],
                    self.product_of(*slope, point.z[*column]),
                );
                point.x.set(*column, x);
                point.y.set(*row, zero());
                point.z.set(*other, rest);
                point.z.set(*column, z);
            },
            Rule::LpFold { columns, rows } => {
                self.gather_classes(&mut point.x, columns, true);
                self.gather_classes(&mut point.y, rows, false);
                self.gather_classes(&mut point.z, columns, false);
            },
            Rule::Eliminated { column, .. } => {
                point.z.set(*column, zero());
            },
        }
        assert(recovery::state(*point, Seq::<Real>::empty()) =~= self.carried(*rule, start));
    }

    /// Forward mapping of caller-supplied coordinates.
    pub fn reduce_point(&self, rules: &Vec<Rule>, point: &mut Point)
        requires
            self.wf(),
            old(point).z@.len() == old(point).x@.len(),
            forall|k: int|
                0 <= k < rules@.len() ==> tape::rule_fits(
                    #[trigger] rules@[k],
                    old(point).x@.len(),
                    old(point).y@.len(),
                ),
        ensures
            recovery::state(*final(point), Seq::<Real>::empty()) == self.reduced(
                rules@,
                recovery::state(*old(point), Seq::<Real>::empty()),
            ),
            final(point).x@.len() == old(point).x@.len(),
            final(point).y@.len() == old(point).y@.len(),
            final(point).z@.len() == old(point).z@.len(),
    {
        let ghost start = recovery::state(*point, Seq::<Real>::empty());
        let ghost columns = point.x@.len();
        let ghost rows = point.y@.len();
        let mut k: usize = 0;
        assert(rules@.take(0) =~= Seq::<Rule>::empty());
        while k < rules.len()
            invariant
                k <= rules@.len(),
                self.wf(),
                point.x@.len() == columns,
                point.z@.len() == columns,
                point.y@.len() == rows,
                forall|k: int|
                    0 <= k < rules@.len() ==> tape::rule_fits(#[trigger] rules@[k], columns, rows),
                recovery::state(*point, Seq::<Real>::empty()) == self.reduced(
                    rules@.take(k as int),
                    start,
                ),
            decreases rules@.len() - k,
        {
            assert(rules@.take(k + 1).drop_last() =~= rules@.take(k as int));
            assert(tape::rule_fits(rules@[k as int], columns, rows));
            self.carry(&rules[k], point);
            k = k + 1;
        }
        assert(rules@.take(k as int) =~= rules@);
    }
}

} // verus!
