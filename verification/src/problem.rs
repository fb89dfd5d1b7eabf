//! Native problem data.

use crate::bounds::Bounds;
use crate::cone::Cone;
use crate::csc::CscMatrix;
use crate::number::Real;
use vstd::prelude::*;

verus! {

/// One row of the shared constraint matrix. Cone coordinates in a block are
/// consecutive; `block` indexes the cone list, independently of opaque ids.
#[derive(Clone, Copy, Debug, PartialEq, Eq, Structural)]
pub enum Constraint {
    Linear(Bounds),
    Cone { rhs: Real, block: usize },
}

/// Minimize `0.5 x'Px + c'x + c0` subject to one constraint per row of `a` and
/// bounds on the variables. `p` holds the upper triangle of `P`; `None` means a
/// linear objective. Empty `variable_bounds` means every variable is free.
#[derive(Clone, Debug)]
pub struct Problem {
    pub p: Option<CscMatrix>,
    pub c: Vec<Real>,
    pub c0: Real,
    pub a: CscMatrix,
    pub rows: Vec<Constraint>,
    pub variable_bounds: Vec<Bounds>,
    pub cones: Vec<Cone>,
}

/// The positions of linear, or of conic, rows among the first `n`.
pub open spec fn positions(rows: Seq<Constraint>, conic: bool, n: nat) -> Seq<usize>
    decreases n,
{
    if n == 0 {
        Seq::empty()
    } else if rows[n - 1] is Cone == conic {
        positions(rows, conic, (n - 1) as nat).push((n - 1) as usize)
    } else {
        positions(rows, conic, (n - 1) as nat)
    }
}

/// Positions are increasing row numbers of the right kind, and list all of them.
pub proof fn positions_are_exact(rows: Seq<Constraint>, conic: bool, n: nat)
    requires
        n <= rows.len(),
        rows.len() <= usize::MAX,
    ensures
        positions(rows, conic, n).len() <= n,
        forall|k: int|
            0 <= k < positions(rows, conic, n).len() ==> (#[trigger] positions(rows, conic, n)[k])
                < n && rows[positions(rows, conic, n)[k] as int] is Cone == conic,
        forall|k: int, l: int|
            0 <= k < l < positions(rows, conic, n).len() ==> (#[trigger] positions(
                rows,
                conic,
                n,
            )[k]) < (#[trigger] positions(rows, conic, n)[l]),
        forall|i: int|
            0 <= i < n && #[trigger] rows[i] is Cone == conic ==> positions(
                rows,
                conic,
                n,
            ).contains(i as usize),
    decreases n,
{
    if n > 0 {
        positions_are_exact(rows, conic, (n - 1) as nat);
        let before = positions(rows, conic, (n - 1) as nat);
        let after = positions(rows, conic, n);
        assert forall|i: int| 0 <= i < n && #[trigger] rows[i] is Cone == conic implies
            after.contains(i as usize) by {
            if i < n - 1 {
                let k = choose|k: int| 0 <= k < before.len() && before[k] == i as usize;
                assert(after[k] == i as usize);
            } else {
                assert(after[before.len() as int] == i as usize);
            }
        }
    }
}

/// Every row is linear or conic.
pub proof fn positions_are_all(rows: Seq<Constraint>, n: nat)
    requires
        n <= rows.len(),
    ensures
        positions(rows, false, n).len() + positions(rows, true, n).len() == n,
    decreases n,
{
    if n > 0 {
        positions_are_all(rows, (n - 1) as nat);
    }
}

/// The linear and the conic rows of a problem.
pub fn row_indices(rows: &Vec<Constraint>) -> (split: (Vec<usize>, Vec<usize>))
    ensures
        split.0@ == positions(rows@, false, rows@.len()),
        split.1@ == positions(rows@, true, rows@.len()),
{
    let mut linear: Vec<usize> = Vec::new();
    let mut conic: Vec<usize> = Vec::new();
    let mut i: usize = 0;
    while i < rows.len()
        invariant
            i <= rows@.len(),
            linear@ == positions(rows@, false, i as nat),
            conic@ == positions(rows@, true, i as nat),
        decreases rows@.len() - i,
    {
        match rows[i] {
            Constraint::Linear(_) => linear.push(i),
            Constraint::Cone { .. } => conic.push(i),
        }
        i = i + 1;
    }
    (linear, conic)
}

impl Problem {
    /// The parts of the problem fit together.
    pub open spec fn wf(&self) -> bool {
        &&& self.a.wf()
        &&& self.a.row_count() == self.rows@.len()
        &&& self.a.column_count() == self.c@.len()
        &&& self.variable_bounds@.len() == 0 || self.variable_bounds@.len() == self.c@.len()
    }

    pub open spec fn bounds_of(&self, j: int) -> Bounds {
        if self.variable_bounds@.len() == 0 {
            Bounds::free()
        } else {
            self.variable_bounds@[j]
        }
    }

    pub fn variable_count(&self) -> (n: usize)
        ensures
            n == self.c@.len(),
    {
        self.c.len()
    }

    pub fn row_count(&self) -> (n: usize)
        ensures
            n == self.rows@.len(),
    {
        self.rows.len()
    }

    /// Bounds of variable `j`, treating empty bounds as free.
    pub fn variable_bounds(&self, j: usize) -> (b: Bounds)
        requires
            self.variable_bounds@.len() == 0 || j < self.variable_bounds@.len(),
        ensures
            b == self.bounds_of(j as int),
    {
        if self.variable_bounds.len() == 0 {
            Bounds::free()
        } else {
            self.variable_bounds[j]
        }
    }
}

} // verus!
