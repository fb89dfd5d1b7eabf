//! Compressed sparse columns: validation, lookup and conversion.

use crate::linked::Entries;
use crate::merge;
use crate::number::Real;
use vstd::prelude::*;

verus! {

/// Errors produced while constructing a matrix.
#[derive(Clone, Copy, Debug, PartialEq, Eq, Structural)]
pub enum MatrixError {
    DimensionOverflow,
    NonFiniteValue,
    InvalidColumnPointerCount,
    InvalidColumnPointers,
    MismatchedSparseArrays,
    RowIndexOutOfBounds { row: usize, rows: usize },
    UnsortedRowIndices,
    MismatchedTripletArrays,
    ColumnIndexOutOfBounds { column: usize, columns: usize },
}

pub open spec fn nondecreasing(pointers: Seq<usize>) -> bool {
    forall|a: int, b: int|
        0 <= a <= b < pointers.len() ==> (#[trigger] pointers[a]) <= (#[trigger] pointers[b])
}

pub open spec fn increasing(indices: Seq<usize>) -> bool {
    forall|a: int, b: int|
        0 <= a < b < indices.len() ==> (#[trigger] indices[a]) < (#[trigger] indices[b])
}

pub open spec fn all_finite(values: Seq<Real>) -> bool {
    forall|a: int| 0 <= a < values.len() ==> (#[trigger] values[a]).finite()
}

/// The first index that is not a row.
pub open spec fn first_outside(indices: Seq<usize>, rows: usize) -> Option<usize>
    decreases indices.len(),
{
    if indices.len() == 0 {
        None
    } else if first_outside(indices.drop_last(), rows) is Some {
        first_outside(indices.drop_last(), rows)
    } else if indices.last() >= rows {
        Some(indices.last())
    } else {
        None
    }
}

/// What is wrong with the row indices of one column.
pub open spec fn column_fault(indices: Seq<usize>, rows: usize) -> Option<MatrixError> {
    match first_outside(indices, rows) {
        Some(row) => Some(MatrixError::RowIndexOutOfBounds { row, rows }),
        None => if increasing(indices) {
            None
        } else {
            Some(MatrixError::UnsortedRowIndices)
        },
    }
}

pub open spec fn column_indices(pointers: Seq<usize>, indices: Seq<usize>, column: int) -> Seq<
    usize,
> {
    indices.subrange(pointers[column] as int, pointers[column + 1] as int)
}

/// The fault of the first faulty column among the first `n`.
pub open spec fn indices_fault(
    pointers: Seq<usize>,
    indices: Seq<usize>,
    rows: usize,
    n: nat,
) -> Option<MatrixError>
    decreases n,
{
    if n == 0 {
        None
    } else {
        match indices_fault(pointers, indices, rows, (n - 1) as nat) {
            Some(fault) => Some(fault),
            None => column_fault(column_indices(pointers, indices, n - 1), rows),
        }
    }
}

/// The error that the arrays of a matrix deserve: their lengths are checked
/// first, then the column pointers, the values, and the row indices by column.
pub open spec fn fault(
    rows: usize,
    columns: usize,
    pointers: Seq<usize>,
    indices: Seq<usize>,
    values: Seq<Real>,
) -> Option<MatrixError> {
    if pointers.len() != columns + 1 {
        Some(MatrixError::InvalidColumnPointerCount)
    } else if indices.len() != values.len() {
        Some(MatrixError::MismatchedSparseArrays)
    } else if pointers[0] != 0 || pointers[columns as int] != values.len() || !nondecreasing(
        pointers,
    ) {
        Some(MatrixError::InvalidColumnPointers)
    } else if !all_finite(values) {
        Some(MatrixError::NonFiniteValue)
    } else {
        indices_fault(pointers, indices, rows, columns as nat)
    }
}

/// The entries of one column, in increasing row order.
pub open spec fn column_entries(
    pointers: Seq<usize>,
    indices: Seq<usize>,
    values: Seq<Real>,
    column: int,
) -> Seq<(usize, Real)> {
    Seq::new(
        (pointers[column + 1] - pointers[column]) as nat,
        |a: int| (indices[pointers[column] + a], values[pointers[column] + a]),
    )
}

/// The value stored for a row among the entries of a column.
pub open spec fn entry_value(entries: Seq<(usize, Real)>, row: usize) -> Option<Real>
    decreases entries.len(),
{
    if entries.len() == 0 {
        None
    } else if entries.last().0 == row {
        Some(entries.last().1)
    } else {
        entry_value(entries.drop_last(), row)
    }
}

proof fn outside_grows(indices: Seq<usize>, rows: usize, n: int)
    requires
        0 <= n < indices.len(),
    ensures
        first_outside(indices.take(n + 1), rows) == (match first_outside(indices.take(n), rows) {
            Some(row) => Some(row),
            None => if indices[n] >= rows {
                Some(indices[n])
            } else {
                None
            },
        }),
{
    assert(indices.take(n + 1).drop_last() =~= indices.take(n));
}

proof fn outside_stays(indices: Seq<usize>, rows: usize, n: int)
    requires
        0 <= n <= indices.len(),
        first_outside(indices.take(n), rows) is Some,
    ensures
        first_outside(indices, rows) == first_outside(indices.take(n), rows),
    decreases indices.len() - n,
{
    if n < indices.len() {
        outside_grows(indices, rows, n);
        outside_stays(indices, rows, n + 1);
    } else {
        assert(indices.take(n) =~= indices);
    }
}

/// Indices of a column without a fault are rows.
pub proof fn indices_inside(indices: Seq<usize>, rows: usize)
    requires
        first_outside(indices, rows) is None,
    ensures
        forall|a: int| 0 <= a < indices.len() ==> (#[trigger] indices[a]) < rows,
    decreases indices.len(),
{
    if indices.len() > 0 {
        indices_inside(indices.drop_last(), rows);
        assert forall|a: int| 0 <= a < indices.len() implies (#[trigger] indices[a]) < rows by {
            if a < indices.len() - 1 {
                assert(indices.drop_last()[a] == indices[a]);
            }
        }
    }
}

proof fn fault_stays(pointers: Seq<usize>, indices: Seq<usize>, rows: usize, n: nat, m: nat)
    requires
        n <= m,
        indices_fault(pointers, indices, rows, n) is Some,
    ensures
        indices_fault(pointers, indices, rows, m) == indices_fault(pointers, indices, rows, n),
    decreases m,
{
    if n < m {
        fault_stays(pointers, indices, rows, n, (m - 1) as nat);
    }
}

/// Every column of faultless arrays is faultless.
pub proof fn faultless_columns(
    pointers: Seq<usize>,
    indices: Seq<usize>,
    rows: usize,
    n: nat,
    column: int,
)
    requires
        indices_fault(pointers, indices, rows, n) is None,
        0 <= column < n,
    ensures
        column_fault(column_indices(pointers, indices, column), rows) is None,
    decreases n,
{
    if column < n - 1 {
        faultless_columns(pointers, indices, rows, (n - 1) as nat, column);
    }
}

fn column_check(indices: &[usize], start: usize, end: usize, rows: usize) -> (fault: Option<
    MatrixError,
>)
    requires
        start <= end <= indices@.len(),
    ensures
        fault == column_fault(indices@.subrange(start as int, end as int), rows),
{
    let ghost column = indices@.subrange(start as int, end as int);
    let mut at: usize = start;
    assert(column.take(0) =~= Seq::<usize>::empty());
    while at < end
        invariant
            start <= at <= end <= indices@.len(),
            column == indices@.subrange(start as int, end as int),
            first_outside(column.take(at - start), rows) is None,
        decreases end - at,
    {
        let row: usize = indices[at];
        proof {
            outside_grows(column, rows, at - start);
        }
        if row >= rows {
            proof {
                outside_stays(column, rows, at - start + 1);
            }
            return Some(MatrixError::RowIndexOutOfBounds { row, rows });
        }
        at = at + 1;
    }
    assert(column.take(at - start) =~= column);
    if start < end {
        let mut at: usize = start + 1;
        while at < end
            invariant
                start < at <= end <= indices@.len(),
                column == indices@.subrange(start as int, end as int),
                first_outside(column, rows) is None,
                forall|a: int, b: int|
                    0 <= a < b < at - start ==> (#[trigger] column[a]) < (#[trigger] column[b]),
            decreases end - at,
        {
            if indices[at - 1] >= indices[at] {
                proof {
                    let k = at - start;
                    assert(column[k - 1] >= column[k]);
                    assert(!increasing(column));
                }
                return Some(MatrixError::UnsortedRowIndices);
            }
            proof {
                let k = at - start;
                assert(column[k - 1] < column[k]);
                assert forall|a: int, b: int| 0 <= a < b < k + 1 implies (#[trigger] column[a]) < (
                #[trigger] column[b]) by {
                    if b == k && a < k - 1 {
                        assert(column[a] < column[k - 1]);
                    }
                }
            }
            at = at + 1;
        }
    }
    None
}

/// Check the arrays of a matrix.
pub fn check(
    rows: usize,
    columns: usize,
    pointers: &[usize],
    indices: &[usize],
    values: &[Real],
) -> (found: Option<MatrixError>)
    ensures
        found == fault(rows, columns, pointers@, indices@, values@),
{
    let count: usize = pointers.len();
    if count == 0 || count - 1 != columns {
        return Some(MatrixError::InvalidColumnPointerCount);
    }
    if indices.len() != values.len() {
        return Some(MatrixError::MismatchedSparseArrays);
    }
    if pointers[0] != 0 || pointers[columns] != values.len() {
        return Some(MatrixError::InvalidColumnPointers);
    }
    let mut at: usize = 1;
    while at < pointers.len()
        invariant
            pointers@.len() == columns + 1,
            indices@.len() == values@.len(),
            pointers@[0] == 0,
            1 <= at <= pointers@.len(),
            forall|a: int, b: int|
                0 <= a <= b < at ==> (#[trigger] pointers@[a]) <= (#[trigger] pointers@[b]),
        decreases pointers@.len() - at,
    {
        if pointers[at - 1] > pointers[at] {
            assert(pointers@[at - 1] > pointers@[at as int]);
            assert(!nondecreasing(pointers@));
            return Some(MatrixError::InvalidColumnPointers);
        }
        proof {
            assert forall|a: int, b: int| 0 <= a <= b < at + 1 implies (#[trigger] pointers@[a])
                <= (#[trigger] pointers@[b]) by {
                if b == at && a < at {
                    assert(pointers@[a] <= pointers@[at - 1]);
                }
            }
        }
        at = at + 1;
    }
    let mut at: usize = 0;
    while at < values.len()
        invariant
            pointers@.len() == columns + 1,
            indices@.len() == values@.len(),
            pointers@[0] == 0,
            pointers@[columns as int] == values@.len(),
            nondecreasing(pointers@),
            at <= values@.len(),
            forall|a: int| 0 <= a < at ==> (#[trigger] values@[a]).finite(),
        decreases values@.len() - at,
    {
        if !values[at].is_finite() {
            assert(!values@[at as int].finite());
            return Some(MatrixError::NonFiniteValue);
        }
        at = at + 1;
    }
    let mut column: usize = 0;
    while column < columns
        invariant
            pointers@.len() == columns + 1,
            indices@.len() == values@.len(),
            pointers@[0] == 0,
            pointers@[columns as int] == values@.len(),
            nondecreasing(pointers@),
            all_finite(values@),
            column <= columns,
            indices_fault(pointers@, indices@, rows, column as nat) is None,
        decreases columns - column,
    {
        let found = column_check(indices, pointers[column], pointers[column + 1], rows);
        if found.is_some() {
            proof {
                fault_stays(pointers@, indices@, rows, (column + 1) as nat, columns as nat);
            }
            return found;
        }
        column = column + 1;
    }
    None
}

/// Owned CSC buffers. Consuming construction and export move the arrays.
#[derive(Clone, Debug, PartialEq)]
pub struct CscMatrix {
    rows: usize,
    columns: usize,
    values: Vec<Real>,
    column_pointers: Vec<usize>,
    row_indices: Vec<usize>,
}

impl CscMatrix {
    /// The arrays describe a matrix.
    pub open spec fn wf(&self) -> bool {
        fault(
            self.row_count(),
            self.column_count(),
            self.pointer_seq(),
            self.index_seq(),
            self.value_seq(),
        ) is None
    }

    pub closed spec fn row_count(&self) -> usize {
        self.rows
    }

    pub closed spec fn column_count(&self) -> usize {
        self.columns
    }

    pub closed spec fn pointer_seq(&self) -> Seq<usize> {
        self.column_pointers@
    }

    pub closed spec fn index_seq(&self) -> Seq<usize> {
        self.row_indices@
    }

    pub closed spec fn value_seq(&self) -> Seq<Real> {
        self.values@
    }

    /// The entries of one column.
    pub open spec fn entries(&self, column: int) -> Seq<(usize, Real)> {
        column_entries(self.pointer_seq(), self.index_seq(), self.value_seq(), column)
    }

    /// Adopt arrays that describe a matrix without scanning them.
    pub fn from_parts(
        rows: usize,
        columns: usize,
        column_pointers: Vec<usize>,
        row_indices: Vec<usize>,
        values: Vec<Real>,
    ) -> (matrix: Self)
        ensures
            matrix.row_count() == rows,
            matrix.column_count() == columns,
            matrix.pointer_seq() == column_pointers@,
            matrix.index_seq() == row_indices@,
            matrix.value_seq() == values@,
    {
        CscMatrix { rows, columns, values, column_pointers, row_indices }
    }

    /// Check and adopt the arrays of a matrix.
    pub fn new(
        rows: usize,
        columns: usize,
        column_pointers: Vec<usize>,
        row_indices: Vec<usize>,
        values: Vec<Real>,
    ) -> (matrix: Result<Self, MatrixError>)
        ensures
            match fault(rows, columns, column_pointers@, row_indices@, values@) {
                Some(error) => matrix == Err::<Self, MatrixError>(error),
                None => {
                    &&& matrix is Ok
                    &&& matrix->Ok_0.wf()
                    &&& matrix->Ok_0.row_count() == rows
                    &&& matrix->Ok_0.column_count() == columns
                    &&& matrix->Ok_0.pointer_seq() == column_pointers@
                    &&& matrix->Ok_0.index_seq() == row_indices@
                    &&& matrix->Ok_0.value_seq() == values@
                },
            },
    {
        match check(
            rows,
            columns,
            column_pointers.as_slice(),
            row_indices.as_slice(),
            values.as_slice(),
        ) {
            Some(error) => Err(error),
            None => Ok(Self::from_parts(rows, columns, column_pointers, row_indices, values)),
        }
    }

    /// A matrix without entries.
    pub fn zeros(rows: usize, columns: usize) -> (matrix: Result<Self, MatrixError>)
        ensures
            columns == usize::MAX ==> matrix == Err::<Self, MatrixError>(
                MatrixError::DimensionOverflow,
            ),
            columns < usize::MAX ==> matrix is Ok && matrix->Ok_0.wf() && matrix->Ok_0.row_count()
                == rows && matrix->Ok_0.column_count() == columns
                && matrix->Ok_0.value_seq().len() == 0,
    {
        if columns == usize::MAX {
            return Err(MatrixError::DimensionOverflow);
        }
        let pointers: Vec<usize> = vec![0usize; columns + 1];
        let matrix = Self::new(rows, columns, pointers, Vec::new(), Vec::new());
        proof {
            empty_columns_are_faultless(pointers@, rows, columns as nat);
        }
        matrix
    }

    /// The identity matrix.
    pub fn identity(size: usize) -> (matrix: Result<Self, MatrixError>)
        ensures
            size == usize::MAX ==> matrix == Err::<Self, MatrixError>(
                MatrixError::DimensionOverflow,
            ),
            size < usize::MAX ==> {
                &&& matrix is Ok
                &&& matrix->Ok_0.wf()
                &&& matrix->Ok_0.row_count() == size
                &&& matrix->Ok_0.column_count() == size
                &&& forall|j: int|
                    0 <= j < size ==> #[trigger] matrix->Ok_0.entries(j) == seq![
                        (j as usize, crate::number::one()),
                    ]
            },
    {
        if size == usize::MAX {
            return Err(MatrixError::DimensionOverflow);
        }
        let mut pointers: Vec<usize> = vec![0usize];
        let mut indices: Vec<usize> = Vec::new();
        let mut values: Vec<Real> = Vec::new();
        let mut at: usize = 0;
        while at < size
            invariant
                at <= size < usize::MAX,
                pointers@.len() == at + 1,
                indices@.len() == at,
                values@.len() == at,
                forall|a: int| 0 <= a <= at ==> #[trigger] pointers@[a] == a,
                forall|a: int| 0 <= a < at ==> #[trigger] indices@[a] == a,
                forall|a: int| 0 <= a < at ==> #[trigger] values@[a] == crate::number::one(),
            decreases size - at,
        {
            indices.push(at);
            values.push(crate::number::one());
            at = at + 1;
            pointers.push(at);
        }
        proof {
            diagonal_is_faultless(pointers@, indices@, size, size as nat);
        }
        let ghost p = pointers@;
        let ghost i = indices@;
        let ghost v = values@;
        let matrix = Self::new(size, size, pointers, indices, values);
        proof {
            assert forall|j: int| 0 <= j < size implies #[trigger] column_entries(p, i, v, j)
                == seq![(j as usize, crate::number::one())] by {
                assert(p[j] == j && p[j + 1] == j + 1);
                assert(column_entries(p, i, v, j) =~= seq![(j as usize, crate::number::one())]);
            }
            assert forall|j: int| 0 <= j < size implies #[trigger] matrix->Ok_0.entries(j) == seq![
                (j as usize, crate::number::one()),
            ] by {
                assert(column_entries(p, i, v, j) == seq![(j as usize, crate::number::one())]);
            }
        }
        matrix
    }

    pub fn rows(&self) -> (rows: usize)
        ensures
            rows == self.row_count(),
    {
        self.rows
    }

    pub fn columns(&self) -> (columns: usize)
        ensures
            columns == self.column_count(),
    {
        self.columns
    }

    pub fn column_pointers(&self) -> (pointers: &[usize])
        ensures
            pointers@ == self.pointer_seq(),
    {
        self.column_pointers.as_slice()
    }

    pub fn row_indices(&self) -> (indices: &[usize])
        ensures
            indices@ == self.index_seq(),
    {
        self.row_indices.as_slice()
    }

    pub fn values(&self) -> (values: &[Real])
        ensures
            values@ == self.value_seq(),
    {
        self.values.as_slice()
    }

    /// Change one coefficient without changing the sparsity pattern.
    pub fn set_value(&mut self, at: usize, value: Real)
        requires
            old(self).wf(),
            at < old(self).value_seq().len(),
            value.finite(),
        ensures
            final(self).wf(),
            final(self).row_count() == old(self).row_count(),
            final(self).column_count() == old(self).column_count(),
            final(self).pointer_seq() == old(self).pointer_seq(),
            final(self).index_seq() == old(self).index_seq(),
            final(self).value_seq() == old(self).value_seq().update(at as int, value),
    {
        self.values.set(at, value);
    }

    pub fn as_ref(&self) -> (matrix: CscMatrixRef<'_>)
        ensures
            matrix.row_count() == self.row_count(),
            matrix.column_count() == self.column_count(),
            matrix.pointer_seq() == self.pointer_seq(),
            matrix.index_seq() == self.index_seq(),
            matrix.value_seq() == self.value_seq(),
    {
        CscMatrixRef {
            rows: self.rows,
            columns: self.columns,
            column_pointers: self.column_pointers.as_slice(),
            row_indices: self.row_indices.as_slice(),
            values: self.values.as_slice(),
        }
    }

    /// The stored coefficient at a position, if any.
    pub fn get(&self, row: usize, column: usize) -> (value: Option<Real>)
        requires
            self.wf(),
        ensures
            value == (if row < self.row_count() && column < self.column_count() {
                entry_value(self.entries(column as int), row)
            } else {
                None
            }),
    {
        self.as_ref().get(row, column)
    }

    /// The entries of one column, in increasing row order.
    pub fn column(&self, column: usize) -> (entries: Entries)
        requires
            self.wf(),
            column < self.column_count(),
        ensures
            entries@ == self.entries(column as int),
    {
        self.as_ref().column(column)
    }
}

proof fn empty_columns_are_faultless(pointers: Seq<usize>, rows: usize, n: nat)
    requires
        n < pointers.len(),
        forall|a: int| 0 <= a < pointers.len() ==> #[trigger] pointers[a] == 0,
    ensures
        indices_fault(pointers, Seq::empty(), rows, n) is None,
    decreases n,
{
    if n > 0 {
        empty_columns_are_faultless(pointers, rows, (n - 1) as nat);
        assert(column_indices(pointers, Seq::empty(), n - 1) =~= Seq::<usize>::empty());
    }
}

proof fn diagonal_is_faultless(pointers: Seq<usize>, indices: Seq<usize>, size: usize, n: nat)
    requires
        n <= size,
        pointers.len() == size + 1,
        indices.len() == size,
        forall|a: int| 0 <= a <= size ==> #[trigger] pointers[a] == a,
        forall|a: int| 0 <= a < size ==> #[trigger] indices[a] == a,
    ensures
        indices_fault(pointers, indices, size, n) is None,
    decreases n,
{
    if n > 0 {
        diagonal_is_faultless(pointers, indices, size, (n - 1) as nat);
        let column = column_indices(pointers, indices, n - 1);
        assert(pointers[n - 1] == n - 1 && pointers[n as int] == n);
        assert(column =~= seq![(n - 1) as usize]);
        assert(column.drop_last() =~= Seq::<usize>::empty());
        assert(first_outside(column.drop_last(), size) is None);
        assert(column.last() == n - 1);
        assert(increasing(column));
    }
}

/// The entries of a column have increasing rows in range.
pub proof fn column_is_increasing(matrix: CscMatrix, column: int)
    requires
        matrix.wf(),
        0 <= column < matrix.column_count(),
    ensures
        merge::increasing(matrix.entries(column)),
        forall|a: int|
            0 <= a < matrix.entries(column).len() ==> (#[trigger] matrix.entries(column)[a]).0
                < matrix.row_count(),
{
    let pointers = matrix.pointer_seq();
    let indices = matrix.index_seq();
    let rows = matrix.row_count();
    faultless_columns(pointers, indices, rows, matrix.column_count() as nat, column);
    let listed = column_indices(pointers, indices, column);
    indices_inside(listed, rows);
    assert(pointers[column] <= pointers[column + 1]);
    assert(pointers[column + 1] <= pointers[matrix.column_count() as int]);
    let entries = matrix.entries(column);
    assert forall|a: int| 0 <= a < entries.len() implies (#[trigger] entries[a]).0
        == listed[a] by {}
    assert forall|a: int, b: int| 0 <= a < b < entries.len() implies (#[trigger] entries[a]).0 < (
    #[trigger] entries[b]).0 by {
        assert(listed[a] < listed[b]);
    }
    assert forall|a: int| 0 <= a < entries.len() implies (#[trigger] entries[a]).0 < rows by {
        assert(listed[a] < rows);
    }
}

/// A borrowed CSC matrix.
#[derive(Clone, Copy, Debug)]
pub struct CscMatrixRef<'a> {
    rows: usize,
    columns: usize,
    column_pointers: &'a [usize],
    row_indices: &'a [usize],
    values: &'a [Real],
}

impl<'a> CscMatrixRef<'a> {
    pub open spec fn wf(&self) -> bool {
        fault(
            self.row_count(),
            self.column_count(),
            self.pointer_seq(),
            self.index_seq(),
            self.value_seq(),
        ) is None
    }

    pub closed spec fn row_count(&self) -> usize {
        self.rows
    }

    pub closed spec fn column_count(&self) -> usize {
        self.columns
    }

    pub closed spec fn pointer_seq(&self) -> Seq<usize> {
        self.column_pointers@
    }

    pub closed spec fn index_seq(&self) -> Seq<usize> {
        self.row_indices@
    }

    pub closed spec fn value_seq(&self) -> Seq<Real> {
        self.values@
    }

    pub open spec fn entries(&self, column: int) -> Seq<(usize, Real)> {
        column_entries(self.pointer_seq(), self.index_seq(), self.value_seq(), column)
    }

    /// Borrow arrays that describe a matrix without scanning them.
    pub fn from_parts(
        rows: usize,
        columns: usize,
        column_pointers: &'a [usize],
        row_indices: &'a [usize],
        values: &'a [Real],
    ) -> (matrix: Self)
        ensures
            matrix.row_count() == rows,
            matrix.column_count() == columns,
            matrix.pointer_seq() == column_pointers@,
            matrix.index_seq() == row_indices@,
            matrix.value_seq() == values@,
    {
        CscMatrixRef { rows, columns, column_pointers, row_indices, values }
    }

    /// Check and borrow the arrays of a matrix.
    pub fn new(
        rows: usize,
        columns: usize,
        column_pointers: &'a [usize],
        row_indices: &'a [usize],
        values: &'a [Real],
    ) -> (matrix: Result<Self, MatrixError>)
        ensures
            match fault(rows, columns, column_pointers@, row_indices@, values@) {
                Some(error) => matrix == Err::<Self, MatrixError>(error),
                None => {
                    &&& matrix is Ok
                    &&& matrix->Ok_0.wf()
                    &&& matrix->Ok_0.row_count() == rows
                    &&& matrix->Ok_0.column_count() == columns
                    &&& matrix->Ok_0.pointer_seq() == column_pointers@
                    &&& matrix->Ok_0.index_seq() == row_indices@
                    &&& matrix->Ok_0.value_seq() == values@
                },
            },
    {
        match check(rows, columns, column_pointers, row_indices, values) {
            Some(error) => Err(error),
            None => Ok(Self::from_parts(rows, columns, column_pointers, row_indices, values)),
        }
    }

    pub fn rows(&self) -> (rows: usize)
        ensures
            rows == self.row_count(),
    {
        self.rows
    }

    pub fn columns(&self) -> (columns: usize)
        ensures
            columns == self.column_count(),
    {
        self.columns
    }

    pub fn column_pointers(&self) -> (pointers: &'a [usize])
        ensures
            pointers@ == self.pointer_seq(),
    {
        self.column_pointers
    }

    pub fn row_indices(&self) -> (indices: &'a [usize])
        ensures
            indices@ == self.index_seq(),
    {
        self.row_indices
    }

    pub fn values(&self) -> (values: &'a [Real])
        ensures
            values@ == self.value_seq(),
    {
        self.values
    }

    /// The entries of one column, in increasing row order.
    pub fn column(&self, column: usize) -> (entries: Entries)
        requires
            self.wf(),
            column < self.column_count(),
        ensures
            entries@ == self.entries(column as int),
    {
        let start: usize = self.column_pointers[column];
        let end: usize = self.column_pointers[column + 1];
        proof {
            assert(self.pointer_seq()[column as int] <= self.pointer_seq()[column + 1]);
            assert(self.pointer_seq()[column + 1] <= self.pointer_seq()[self.columns as int]);
        }
        let mut entries: Entries = Vec::with_capacity(end - start);
        let mut at: usize = start;
        while at < end
            invariant
                start <= at <= end,
                end <= self.row_indices@.len(),
                self.row_indices@.len() == self.values@.len(),
                entries@.len() == at - start,
                forall|a: int|
                    0 <= a < at - start ==> #[trigger] entries@[a] == (
                        self.row_indices@[start + a],
                        self.values@[start + a],
                    ),
            decreases end - at,
        {
            entries.push((self.row_indices[at], self.values[at]));
            at = at + 1;
        }
        assert(entries@ =~= self.entries(column as int));
        entries
    }

    /// The stored coefficient at a position, if any.
    pub fn get(&self, row: usize, column: usize) -> (value: Option<Real>)
        requires
            self.wf(),
        ensures
            value == (if row < self.row_count() && column < self.column_count() {
                entry_value(self.entries(column as int), row)
            } else {
                None
            }),
    {
        if row >= self.rows || column >= self.columns {
            return None;
        }
        let start: usize = self.column_pointers[column];
        let end: usize = self.column_pointers[column + 1];
        let ghost entries = self.entries(column as int);
        proof {
            assert(self.pointer_seq()[column as int] <= self.pointer_seq()[column + 1]);
            assert(self.pointer_seq()[column + 1] <= self.pointer_seq()[self.columns as int]);
            faultless_columns(
                self.column_pointers@,
                self.row_indices@,
                self.rows,
                self.columns as nat,
                column as int,
            );
            let column_rows = column_indices(
                self.column_pointers@,
                self.row_indices@,
                column as int,
            );
            assert forall|a: int, b: int| 0 <= a < b < entries.len() implies (
            #[trigger] entries[a]).0 < (#[trigger] entries[b]).0 by {
                assert(column_rows[a] < column_rows[b]);
            }
        }
        let mut low: usize = start;
        let mut high: usize = end;
        while low < high
            invariant
                start <= low <= high <= end,
                row < self.rows,
                column < self.columns,
                end <= self.row_indices@.len(),
                self.row_indices@.len() == self.values@.len(),
                entries == self.entries(column as int),
                start == self.column_pointers@[column as int],
                end == self.column_pointers@[column + 1],
                forall|a: int, b: int|
                    0 <= a < b < entries.len() ==> (#[trigger] entries[a]).0 < (
                    #[trigger] entries[b]).0,
                forall|a: int| 0 <= a < low - start ==> (#[trigger] entries[a]).0 < row,
                forall|a: int| high - start <= a < entries.len() ==> (#[trigger] entries[a]).0
                    > row,
            decreases high - low,
        {
            let middle: usize = low + (high - low) / 2;
            let found: usize = self.row_indices[middle];
            assert(entries[middle - start] == (found, self.values@[middle as int]));
            if found == row {
                proof {
                    entry_found(entries, row, middle - start);
                }
                return Some(self.values[middle]);
            } else if found < row {
                low = middle + 1;
            } else {
                high = middle;
            }
        }
        proof {
            entry_missing(entries, row);
        }
        None
    }

    pub fn to_owned(&self) -> (matrix: CscMatrix)
        ensures
            matrix.row_count() == self.row_count(),
            matrix.column_count() == self.column_count(),
            matrix.pointer_seq() == self.pointer_seq(),
            matrix.index_seq() == self.index_seq(),
            matrix.value_seq() == self.value_seq(),
    {
        CscMatrix {
            rows: self.rows,
            columns: self.columns,
            column_pointers: copy_indices(self.column_pointers),
            row_indices: copy_indices(self.row_indices),
            values: copy_values(self.values),
        }
    }
}

fn copy_indices(source: &[usize]) -> (copy: Vec<usize>)
    ensures
        copy@ == source@,
{
    let mut copy: Vec<usize> = Vec::with_capacity(source.len());
    let mut at: usize = 0;
    while at < source.len()
        invariant
            at <= source@.len(),
            copy@ == source@.take(at as int),
        decreases source@.len() - at,
    {
        copy.push(source[at]);
        at = at + 1;
        assert(copy@ =~= source@.take(at as int));
    }
    assert(source@.take(at as int) =~= source@);
    copy
}

fn copy_values(source: &[Real]) -> (copy: Vec<Real>)
    ensures
        copy@ == source@,
{
    let mut copy: Vec<Real> = Vec::with_capacity(source.len());
    let mut at: usize = 0;
    while at < source.len()
        invariant
            at <= source@.len(),
            copy@ == source@.take(at as int),
        decreases source@.len() - at,
    {
        copy.push(source[at]);
        at = at + 1;
        assert(copy@ =~= source@.take(at as int));
    }
    assert(source@.take(at as int) =~= source@);
    copy
}

proof fn entry_found(entries: Seq<(usize, Real)>, row: usize, at: int)
    requires
        0 <= at < entries.len(),
        entries[at].0 == row,
        forall|a: int, b: int|
            0 <= a < b < entries.len() ==> (#[trigger] entries[a]).0 < (#[trigger] entries[b]).0,
    ensures
        entry_value(entries, row) == Some(entries[at].1),
    decreases entries.len(),
{
    if at < entries.len() - 1 {
        assert(entries[at].0 < entries[entries.len() - 1].0);
        assert(entries.drop_last()[at] == entries[at]);
        entry_found(entries.drop_last(), row, at);
    }
}

proof fn entry_missing(entries: Seq<(usize, Real)>, row: usize)
    requires
        forall|a: int| 0 <= a < entries.len() ==> (#[trigger] entries[a]).0 != row,
    ensures
        entry_value(entries, row) is None,
    decreases entries.len(),
{
    if entries.len() > 0 {
        assert(entries[entries.len() - 1].0 != row);
        assert forall|a: int| 0 <= a < entries.drop_last().len() implies (
        #[trigger] entries.drop_last()[a]).0 != row by {
            assert(entries.drop_last()[a] == entries[a]);
        }
        entry_missing(entries.drop_last(), row);
    }
}

} // verus!
