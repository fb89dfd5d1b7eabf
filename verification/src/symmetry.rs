//! Whether a matrix with both triangles stored is symmetric up to rounding.

use crate::arithmetic::Arithmetic;
use crate::csc::{self, CscMatrixRef};
use crate::number::{one, zero, Real};
use vstd::prelude::*;

verus! {

/// What two mirrored coefficients may differ by, relative to the larger one.
pub const RELATIVE_GAP: u64 = 0x3d719799812dea11;

impl<
    P: Fn(Real, Real) -> Real,
    T: Fn(Real, Real) -> Real,
    D: Fn(Real, Real) -> Real,
    H: Fn(Real, Real) -> Real,
> Arithmetic<P, T, D, H> {
    /// Two coefficients differ by more than rounding.
    pub open spec fn mirrors_differ(&self, a: Real, b: Real) -> bool {
        let largest = a.absolute().larger(b.absolute());
        self.product(Real { bits: RELATIVE_GAP }, self.sum(one(), largest)).lt(
            self.difference(a, b).absolute(),
        )
    }

    fn differ_as_mirrors(&self, a: Real, b: Real) -> (differ: bool)
        requires
            self.wf(),
        ensures
            differ == self.mirrors_differ(a, b),
    {
        let largest = a.abs().max(b.abs());
        let allowed = self.product_of(Real::from_bits(RELATIVE_GAP), self.sum_of(one(), largest));
        allowed.less(self.difference_of(a, b).abs())
    }
}

/// The coefficient at a position, zero where none is stored.
pub open spec fn mirrored(matrix: CscMatrixRef<'_>, i: usize, j: int) -> Real {
    match csc::entry_value(matrix.entries(i as int), j as usize) {
        Some(v) => v,
        None => zero(),
    }
}

/// A stored coefficient is as large as its mirror image, up to rounding.
pub open spec fn entry_mirrored<
    P: Fn(Real, Real) -> Real,
    T: Fn(Real, Real) -> Real,
    D: Fn(Real, Real) -> Real,
    H: Fn(Real, Real) -> Real,
>(matrix: CscMatrixRef<'_>, arithmetic: Arithmetic<P, T, D, H>, j: int, k: int) -> bool {
    let (i, v) = matrix.entries(j)[k];
    !arithmetic.mirrors_differ(v, mirrored(matrix, i, j))
}

/// The entries of a column are in range.
proof fn rows_fit(matrix: CscMatrixRef<'_>, column: int)
    requires
        matrix.wf(),
        0 <= column < matrix.column_count(),
    ensures
        forall|a: int|
            0 <= a < matrix.entries(column).len() ==> (#[trigger] matrix.entries(column)[a]).0
                < matrix.row_count(),
{
    let pointers = matrix.pointer_seq();
    let indices = matrix.index_seq();
    let rows = matrix.row_count();
    csc::faultless_columns(pointers, indices, rows, matrix.column_count() as nat, column);
    let listed = csc::column_indices(pointers, indices, column);
    csc::indices_inside(listed, rows);
    assert(pointers[column] <= pointers[column + 1]);
    assert(pointers[column + 1] <= pointers[matrix.column_count() as int]);
    let entries = matrix.entries(column);
    assert forall|a: int| 0 <= a < entries.len() implies (#[trigger] entries[a]).0 < rows by {
        assert(entries[a].0 == listed[a]);
    }
}

impl<'a> CscMatrixRef<'a> {
    /// Whether the matrix is square and every stored coefficient is as large as
    /// its mirror image, up to `1e-12 * (1 + max(|a|, |b|))`.
    pub fn is_symmetric<
        P: Fn(Real, Real) -> Real,
        T: Fn(Real, Real) -> Real,
        D: Fn(Real, Real) -> Real,
        H: Fn(Real, Real) -> Real,
    >(&self, arithmetic: &Arithmetic<P, T, D, H>) -> (b: bool)
        requires
            self.wf(),
            arithmetic.wf(),
        ensures
            b == (self.row_count() == self.column_count() && forall|j: int, k: int|
                0 <= j < self.column_count() && 0 <= k < self.entries(j).len()
                    ==> #[trigger] entry_mirrored(*self, *arithmetic, j, k)),
    {
        let n: usize = self.columns();
        if self.rows() != n {
            return false;
        }
        let mut j: usize = 0;
        while j < n
            invariant
                self.wf(),
                arithmetic.wf(),
                n == self.column_count(),
                n == self.row_count(),
                j <= n,
                forall|x: int, k: int|
                    0 <= x < j && 0 <= k < self.entries(x).len() ==> #[trigger] entry_mirrored(
                        *self,
                        *arithmetic,
                        x,
                        k,
                    ),
            decreases n - j,
        {
            let entries = self.column(j);
            proof {
                rows_fit(*self, j as int);
            }
            let mut k: usize = 0;
            while k < entries.len()
                invariant
                    self.wf(),
                    arithmetic.wf(),
                    n == self.column_count(),
                    n == self.row_count(),
                    j < n,
                    k <= entries@.len(),
                    entries@ == self.entries(j as int),
                    forall|t: int| 0 <= t < entries@.len() ==> (#[trigger] entries@[t]).0 < n,
                    forall|t: int|
                        0 <= t < k ==> #[trigger] entry_mirrored(*self, *arithmetic, j as int, t),
                decreases entries@.len() - k,
            {
                assert(entries@[k as int].0 < n);
                let (i, v): (usize, Real) = entries[k];
                let other = match self.get(j, i) {
                    Some(other) => other,
                    None => zero(),
                };
                assert(other == mirrored(*self, i, j as int));
                if arithmetic.differ_as_mirrors(v, other) {
                    assert(!entry_mirrored(*self, *arithmetic, j as int, k as int));
                    return false;
                }
                k = k + 1;
            }
            j = j + 1;
        }
        true
    }
}

} // verus!
