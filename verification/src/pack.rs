//! Packing lists of column entries into compressed sparse columns.

use crate::csc::{self, CscMatrix};
use crate::linked::Entries;
use crate::merge;
use crate::number::Real;
use vstd::prelude::*;

verus! {

/// A list can be a column of a matrix: increasing rows in range, finite values.
pub open spec fn column_fits(entries: Seq<(usize, Real)>, rows: usize) -> bool {
    &&& merge::increasing(entries)
    &&& forall|a: int|
        0 <= a < entries.len() ==> (#[trigger] entries[a]).0 < rows && entries[a].1.finite()
}

/// The arrays of a matrix after some of its columns were packed.
spec fn packed(
    pointers: Seq<usize>,
    indices: Seq<usize>,
    values: Seq<Real>,
    columns: Seq<Entries>,
    n: int,
) -> bool {
    &&& pointers.len() == n + 1
    &&& pointers[0] == 0
    &&& pointers[n] == values.len()
    &&& indices.len() == values.len()
    &&& csc::nondecreasing(pointers)
    &&& forall|j: int|
        0 <= j < n ==> #[trigger] csc::column_entries(pointers, indices, values, j) == columns[j]@
}

proof fn columns_are_faultless(
    pointers: Seq<usize>,
    indices: Seq<usize>,
    values: Seq<Real>,
    columns: Seq<Entries>,
    rows: usize,
    n: nat,
)
    requires
        packed(pointers, indices, values, columns, columns.len() as int),
        n <= columns.len(),
        forall|j: int|
            0 <= j < columns.len() ==> column_fits((#[trigger] columns[j])@, rows),
    ensures
        csc::indices_fault(pointers, indices, rows, n) is None,
    decreases n,
{
    if n > 0 {
        columns_are_faultless(pointers, indices, values, columns, rows, (n - 1) as nat);
        let j = n - 1;
        let column = csc::column_indices(pointers, indices, j);
        let listed = columns[j]@;
        assert(column_fits(columns[j]@, rows));
        assert(csc::column_entries(pointers, indices, values, j) == listed);
        assert(pointers[j] <= pointers[j + 1]);
        assert(pointers[j + 1] <= pointers[columns.len() as int]);
        assert(column.len() == listed.len());
        assert forall|a: int| 0 <= a < column.len() implies #[trigger] column[a]
            == listed[a].0 by {
            assert(csc::column_entries(pointers, indices, values, j)[a] == listed[a]);
        }
        assert forall|a: int| 0 <= a < column.len() implies (#[trigger] column[a]) < rows by {
            assert(listed[a].0 < rows);
        }
        none_outside(column, rows);
        assert forall|a: int, b: int| 0 <= a < b < column.len() implies (#[trigger] column[a]) < (
        #[trigger] column[b]) by {
            assert(listed[a].0 < listed[b].0);
        }
    }
}

proof fn none_outside(indices: Seq<usize>, rows: usize)
    requires
        forall|a: int| 0 <= a < indices.len() ==> (#[trigger] indices[a]) < rows,
    ensures
        csc::first_outside(indices, rows) is None,
    decreases indices.len(),
{
    if indices.len() > 0 {
        let less = indices.drop_last();
        assert forall|a: int| 0 <= a < less.len() implies (#[trigger] less[a]) < rows by {
            assert(less[a] == indices[a]);
        }
        none_outside(less, rows);
        assert(indices[indices.len() - 1] < rows);
    }
}

proof fn values_are_finite(
    pointers: Seq<usize>,
    indices: Seq<usize>,
    values: Seq<Real>,
    columns: Seq<Entries>,
    rows: usize,
    n: nat,
)
    requires
        packed(pointers, indices, values, columns, columns.len() as int),
        n <= columns.len(),
        forall|j: int|
            0 <= j < columns.len() ==> column_fits((#[trigger] columns[j])@, rows),
    ensures
        forall|a: int| 0 <= a < pointers[n as int] ==> (#[trigger] values[a]).finite(),
    decreases n,
{
    if n > 0 {
        values_are_finite(pointers, indices, values, columns, rows, (n - 1) as nat);
        let j = n - 1;
        let listed = columns[j]@;
        assert(column_fits(columns[j]@, rows));
        assert(csc::column_entries(pointers, indices, values, j) == listed);
        assert(pointers[j] <= pointers[j + 1]);
        assert forall|a: int| 0 <= a < pointers[n as int] implies (
        #[trigger] values[a]).finite() by {
            if a >= pointers[j] {
                let k = a - pointers[j];
                assert(csc::column_entries(pointers, indices, values, j)[k] == listed[k]);
                assert(listed[k].1.finite());
            }
        }
    }
}

/// Pack columns in order.
pub fn pack_columns(rows: usize, columns: &Vec<Entries>) -> (matrix: CscMatrix)
    ensures
        matrix.row_count() == rows,
        matrix.column_count() == columns@.len(),
        forall|j: int|
            0 <= j < columns@.len() ==> #[trigger] matrix.entries(j) == columns@[j]@,
        (forall|j: int| 0 <= j < columns@.len() ==> column_fits((#[trigger] columns@[j])@, rows))
            ==> matrix.wf(),
{
    let mut pointers: Vec<usize> = Vec::new();
    let mut indices: Vec<usize> = Vec::new();
    let mut values: Vec<Real> = Vec::new();
    pointers.push(0);
    let mut j: usize = 0;
    while j < columns.len()
        invariant
            j <= columns@.len(),
            packed(pointers@, indices@, values@, columns@, j as int),
        decreases columns@.len() - j,
    {
        let ghost first = values@.len();
        let ghost before = (pointers@, indices@, values@);
        let mut a: usize = 0;
        while a < columns[j].len()
            invariant
                j < columns@.len(),
                a <= columns@[j as int]@.len(),
                first == before.2.len(),
                before.1.len() == first,
                indices@.len() == first + a,
                values@.len() == first + a,
                pointers@ == before.0,
                forall|k: int| 0 <= k < first ==> #[trigger] indices@[k] == before.1[k],
                forall|k: int| 0 <= k < first ==> #[trigger] values@[k] == before.2[k],
                forall|k: int|
                    0 <= k < a ==> #[trigger] indices@[first + k] == columns@[j as int]@[k].0,
                forall|k: int|
                    0 <= k < a ==> #[trigger] values@[first + k] == columns@[j as int]@[k].1,
            decreases columns@[j as int]@.len() - a,
        {
            let (i, v): (usize, Real) = columns[j][a];
            indices.push(i);
            values.push(v);
            a = a + 1;
        }
        pointers.push(values.len());
        proof {
            let n = j as int;
            assert forall|x: int, y: int| 0 <= x <= y < pointers@.len() implies (
            #[trigger] pointers@[x]) <= (#[trigger] pointers@[y]) by {
                if x < n + 1 {
                    assert(pointers@[x] == before.0[x]);
                    assert(before.0[x] <= before.0[n]);
                }
                if y < n + 1 {
                    assert(pointers@[y] == before.0[y]);
                }
            }
            assert forall|k: int| 0 <= k < n + 1 implies #[trigger] csc::column_entries(
                pointers@,
                indices@,
                values@,
                k,
            ) == columns@[k]@ by {
                assert(pointers@[k] == before.0[k]);
                if k < n {
                    assert(pointers@[k + 1] == before.0[k + 1]);
                    assert(before.0[k + 1] <= before.0[n]);
                    assert(csc::column_entries(pointers@, indices@, values@, k)
                        =~= csc::column_entries(before.0, before.1, before.2, k));
                } else {
                    assert(csc::column_entries(pointers@, indices@, values@, k)
                        =~= columns@[k]@);
                }
            }
        }
        j = j + 1;
    }
    proof {
        if forall|j: int| 0 <= j < columns@.len() ==> column_fits((#[trigger] columns@[j])@, rows) {
            columns_are_faultless(
                pointers@,
                indices@,
                values@,
                columns@,
                rows,
                columns@.len(),
            );
            values_are_finite(pointers@, indices@, values@, columns@, rows, columns@.len());
        }
    }
    CscMatrix::from_parts(rows, columns.len(), pointers, indices, values)
}

} // verus!
