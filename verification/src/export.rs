//! Multipliers of the conic form in terms of rows, bounds and cones, and back.

use crate::arithmetic::Arithmetic;
use crate::conic::{ConicMap, Output};
use crate::number::{zero, Real};
use crate::postsolve::{PrimalCertificate, Solution};
use crate::tape;
use vstd::prelude::*;

verus! {

/// Multipliers of linear rows, of bounds and of cone coordinates.
pub type Native = (Seq<Real>, Seq<Real>, Seq<Real>);

/// No multipliers.
pub open spec fn blank(linear: nat, bounds: nat, conic: nat) -> Native {
    (tape::zeros(linear), tape::zeros(bounds), tape::zeros(conic))
}

fn clear(values: &mut Vec<Real>)
    ensures
        final(values)@ == tape::zeros(old(values)@.len()),
{
    let n: usize = values.len();
    let mut i: usize = 0;
    while i < n
        invariant
            i <= n,
            n == values@.len(),
            n == old(values)@.len(),
            forall|k: int| 0 <= k < i ==> #[trigger] values@[k] == zero(),
        decreases n - i,
    {
        values.set(i, zero());
        i = i + 1;
    }
    assert(values@ =~= tape::zeros(n as nat));
}

impl<
    P: Fn(Real, Real) -> Real,
    T: Fn(Real, Real) -> Real,
    D: Fn(Real, Real) -> Real,
    H: Fn(Real, Real) -> Real,
> Arithmetic<P, T, D, H> {
    /// A multiplier of one conic row, added where the row comes from.
    pub open spec fn returned_one(&self, native: Native, output: Output, v: Real) -> Native {
        match output {
            Output::Row { index, scale, .. } => (
                native.0.update(
                    index as int,
                    self.sum(native.0[index as int], self.product(scale, v)),
                ),
                native.1,
                native.2,
            ),
            Output::Bound { column, scale, .. } => (
                native.0,
                native.1.update(
                    column as int,
                    self.sum(native.1[column as int], self.product(scale, v)),
                ),
                native.2,
            ),
            Output::Cone(i) => (native.0, native.1, native.2.update(i as int, v)),
        }
    }

    /// The multipliers of the first `n` conic rows, added where they come from.
    pub open spec fn returned(
        &self,
        start: Native,
        outputs: Seq<Output>,
        y: Seq<Real>,
        n: nat,
    ) -> Native
        decreases n,
    {
        if n == 0 {
            start
        } else {
            self.returned_one(
                self.returned(start, outputs, y, (n - 1) as nat),
                outputs[n - 1],
                y[n - 1],
            )
        }
    }

    /// The multiplier of a conic row for multipliers of rows, bounds and cones.
    /// Inequalities take none below zero.
    pub open spec fn sent_one(&self, output: Output, point: Solution) -> Real {
        match output {
            Output::Row { index, scale, equality } => {
                let y = self.product(scale, point.y@[index as int]);
                if equality {
                    y
                } else {
                    y.larger(zero())
                }
            },
            Output::Bound { column, scale, equality } => {
                let y = self.product(scale, point.z@[column as int]);
                if equality {
                    y
                } else {
                    y.larger(zero())
                }
            },
            Output::Cone(i) => point.conic_dual@[i as int],
        }
    }
}

/// As many of the conic rows as have a multiplier.
pub open spec fn shared(outputs: nat, multipliers: nat) -> nat {
    if outputs <= multipliers {
        outputs
    } else {
        multipliers
    }
}

impl ConicMap {
    /// Convert multipliers of conic rows, also those of a proof of infeasibility,
    /// into the given lists.
    pub fn dual_into<
        P: Fn(Real, Real) -> Real,
        T: Fn(Real, Real) -> Real,
        D: Fn(Real, Real) -> Real,
        H: Fn(Real, Real) -> Real,
    >(
        &self,
        arithmetic: &Arithmetic<P, T, D, H>,
        y: &Vec<Real>,
        linear: &mut Vec<Real>,
        bounds: &mut Vec<Real>,
        conic: &mut Vec<Real>,
    )
        requires
            arithmetic.wf(),
            self.wf(),
            old(linear)@.len() >= self.linear_total(),
            old(bounds)@.len() >= self.variable_total(),
            old(conic)@.len() >= self.conic_total(),
        ensures
            (final(linear)@, final(bounds)@, final(conic)@) == arithmetic.returned(
                blank(old(linear)@.len(), old(bounds)@.len(), old(conic)@.len()),
                self.output_seq(),
                y@,
                shared(self.output_seq().len(), y@.len()),
            ),
    {
        clear(linear);
        clear(bounds);
        clear(conic);
        let ghost start: Native = (linear@, bounds@, conic@);
        let total: usize = self.output_dimension();
        let mut k: usize = 0;
        while k < total && k < y.len()
            invariant
                arithmetic.wf(),
                self.wf(),
                total == self.output_seq().len(),
                k <= total,
                k <= y@.len(),
                linear@.len() >= self.linear_total(),
                bounds@.len() >= self.variable_total(),
                conic@.len() >= self.conic_total(),
                (linear@, bounds@, conic@) == arithmetic.returned(
                    start,
                    self.output_seq(),
                    y@,
                    k as nat,
                ),
            decreases total - k,
        {
            let v = y[k];
            match self.output(k) {
                Output::Row { index, scale, .. } => {
                    let sum = arithmetic.sum_of(linear[index], arithmetic.product_of(scale, v));
                    linear.set(index, sum);
                },
                Output::Bound { column, scale, .. } => {
                    let sum = arithmetic.sum_of(bounds[column], arithmetic.product_of(scale, v));
                    bounds.set(column, sum);
                },
                Output::Cone(i) => {
                    conic.set(i, v);
                },
            }
            k = k + 1;
        }
    }

    /// Convert multipliers of conic rows to those of rows, bounds and cones.
    pub fn dual<
        P: Fn(Real, Real) -> Real,
        T: Fn(Real, Real) -> Real,
        D: Fn(Real, Real) -> Real,
        H: Fn(Real, Real) -> Real,
    >(&self, arithmetic: &Arithmetic<P, T, D, H>, y: &Vec<Real>) -> (out: PrimalCertificate)
        requires
            arithmetic.wf(),
            self.wf(),
        ensures
            (out.y@, out.z@, out.conic_dual@) == arithmetic.returned(
                blank(self.linear_total(), self.variable_total(), self.conic_total()),
                self.output_seq(),
                y@,
                shared(self.output_seq().len(), y@.len()),
            ),
    {
        let mut linear = tape::zero_vec(self.linear_row_count());
        let mut bounds = tape::zero_vec(self.variable_count());
        let mut conic = tape::zero_vec(self.conic_row_count());
        self.dual_into(arithmetic, y, &mut linear, &mut bounds, &mut conic);
        PrimalCertificate { y: linear, z: bounds, conic_dual: conic }
    }

    /// Multipliers of conic rows to start a solver from.
    pub fn warm_dual<
        P: Fn(Real, Real) -> Real,
        T: Fn(Real, Real) -> Real,
        D: Fn(Real, Real) -> Real,
        H: Fn(Real, Real) -> Real,
    >(&self, arithmetic: &Arithmetic<P, T, D, H>, point: &Solution) -> (y: Vec<Real>)
        requires
            arithmetic.wf(),
            self.wf(),
            point.y@.len() >= self.linear_total(),
            point.z@.len() >= self.variable_total(),
            point.conic_dual@.len() >= self.conic_total(),
        ensures
            y@ == self.output_seq().map_values(
                |output: Output| arithmetic.sent_one(output, *point),
            ),
    {
        let total: usize = self.output_dimension();
        let mut y: Vec<Real> = Vec::new();
        let mut k: usize = 0;
        while k < total
            invariant
                arithmetic.wf(),
                self.wf(),
                total == self.output_seq().len(),
                k <= total,
                point.y@.len() >= self.linear_total(),
                point.z@.len() >= self.variable_total(),
                point.conic_dual@.len() >= self.conic_total(),
                y@.len() == k,
                forall|m: int|
                    0 <= m < k ==> #[trigger] y@[m] == arithmetic.sent_one(
                        self.output_seq()[m],
                        *point,
                    ),
            decreases total - k,
        {
            let v = match self.output(k) {
                Output::Row { index, scale, equality } => {
                    let y = arithmetic.product_of(scale, point.y[index]);
                    if equality {
                        y
                    } else {
                        y.max(zero())
                    }
                },
                Output::Bound { column, scale, equality } => {
                    let y = arithmetic.product_of(scale, point.z[column]);
                    if equality {
                        y
                    } else {
                        y.max(zero())
                    }
                },
                Output::Cone(i) => point.conic_dual[i],
            };
            y.push(v);
            k = k + 1;
        }
        assert(y@ =~= self.output_seq().map_values(
            |output: Output| arithmetic.sent_one(output, *point),
        ));
        y
    }
}

} // verus!
