//! Compressed columns from triplets whose repeated positions are summed.

use crate::arithmetic;
use crate::csc::{CscMatrix, MatrixError};
use crate::number::Real;
use crate::triplets::{self, Built};
use vstd::prelude::*;

verus! {

pub type Triplet = (usize, usize, Real);

/// The first array element that cannot be stored, from place `k` on.
pub open spec fn triplet_fault(
    rows: usize,
    columns: usize,
    row_indices: Seq<usize>,
    column_indices: Seq<usize>,
    values: Seq<Real>,
    k: int,
) -> Option<MatrixError>
    decreases values.len() - k,
{
    if k >= values.len() {
        None
    } else if row_indices[k] >= rows {
        Some(MatrixError::RowIndexOutOfBounds { row: row_indices[k], rows })
    } else if column_indices[k] >= columns {
        Some(MatrixError::ColumnIndexOutOfBounds { column: column_indices[k], columns })
    } else if !values[k].finite() {
        Some(MatrixError::NonFiniteValue)
    } else {
        triplet_fault(rows, columns, row_indices, column_indices, values, k + 1)
    }
}

/// Three arrays as one.
pub open spec fn zipped(
    row_indices: Seq<usize>,
    column_indices: Seq<usize>,
    values: Seq<Real>,
) -> Seq<Triplet> {
    Seq::new(values.len(), |k: int| (row_indices[k], column_indices[k], values[k]))
}

/// Neighbours at the same position are added up, from place `k` on; nothing
/// where a sum is not finite.
pub open spec fn summed<P: Fn(Real, Real) -> Real>(
    list: Seq<Triplet>,
    plus: P,
    out: Seq<Triplet>,
    k: int,
) -> Option<Seq<Triplet>>
    decreases list.len() - k,
{
    if k >= list.len() {
        Some(out)
    } else if out.len() > 0 && triplets::same_position(out.last(), list[k]) {
        let v = arithmetic::value(plus, out.last().2, list[k].2);
        if v.finite() {
            summed(
                list,
                plus,
                out.update(out.len() - 1, (out.last().0, out.last().1, v)),
                k + 1,
            )
        } else {
            None
        }
    } else {
        summed(list, plus, out.push(list[k]), k + 1)
    }
}

/// The matrix of the triplets, which may be added up in any order within a
/// position.
pub open spec fn sums_to<P: Fn(Real, Real) -> Real>(
    built: Result<CscMatrix, MatrixError>,
    rows: usize,
    columns: usize,
    given: Seq<Triplet>,
    list: Seq<Triplet>,
    plus: P,
) -> bool {
    &&& triplets::sorted(list)
    &&& list.to_multiset() == given.to_multiset()
    &&& match summed(list, plus, Seq::empty(), 0) {
        None => built == Err::<CscMatrix, MatrixError>(MatrixError::NonFiniteValue),
        Some(out) => if columns == usize::MAX {
            built == Err::<CscMatrix, MatrixError>(MatrixError::DimensionOverflow)
        } else {
            built matches Ok(matrix) && triplets::holds(matrix, rows, columns, out)
        },
    }
}

/// What the arrays build.
pub open spec fn built_from<P: Fn(Real, Real) -> Real>(
    built: Result<CscMatrix, MatrixError>,
    rows: usize,
    columns: usize,
    row_indices: Seq<usize>,
    column_indices: Seq<usize>,
    values: Seq<Real>,
    plus: P,
) -> bool {
    if row_indices.len() != column_indices.len() || row_indices.len() != values.len() {
        built == Err::<CscMatrix, MatrixError>(MatrixError::MismatchedTripletArrays)
    } else {
        match triplet_fault(rows, columns, row_indices, column_indices, values, 0) {
            Some(error) => built == Err::<CscMatrix, MatrixError>(error),
            None => exists|list: Seq<Triplet>| #[trigger]
                sums_to(
                    built,
                    rows,
                    columns,
                    zipped(row_indices, column_indices, values),
                    list,
                    plus,
                ),
        }
    }
}

/// Positions grow strictly.
spec fn strict(list: Seq<Triplet>) -> bool {
    forall|a: int, b: int|
        0 <= a < b < list.len() ==> triplets::before(#[trigger] list[a], #[trigger] list[b])
            && !triplets::same_position(list[a], list[b])
}

fn sum_neighbours<P: Fn(Real, Real) -> Real>(
    list: &Vec<Triplet>,
    plus: &P,
    rows: usize,
    columns: usize,
) -> (r: Option<Vec<Triplet>>)
    requires
        arithmetic::functional(*plus),
        triplets::sorted(list@),
        triplets::inside(list@, rows, columns),
        forall|k: int| 0 <= k < list@.len() ==> (#[trigger] list@[k]).2.finite(),
    ensures
        match r {
            Some(out) => {
                &&& summed(list@, *plus, Seq::empty(), 0) == Some(out@)
                &&& strict(out@)
                &&& triplets::inside(out@, rows, columns)
                &&& forall|k: int| 0 <= k < out@.len() ==> (#[trigger] out@[k]).2.finite()
            },
            None => summed(list@, *plus, Seq::empty(), 0) is None,
        },
{
    let mut out: Vec<Triplet> = Vec::new();
    assert(out@ =~= Seq::<Triplet>::empty());
    let mut k: usize = 0;
    while k < list.len()
        invariant
            k <= list@.len(),
            arithmetic::functional(*plus),
            triplets::sorted(list@),
            triplets::inside(list@, rows, columns),
            forall|k: int| 0 <= k < list@.len() ==> (#[trigger] list@[k]).2.finite(),
            strict(out@),
            triplets::inside(out@, rows, columns),
            forall|k: int| 0 <= k < out@.len() ==> (#[trigger] out@[k]).2.finite(),
            forall|a: int, b: int|
                0 <= a < out@.len() && k <= b < list@.len() ==> triplets::before(
                    #[trigger] out@[a],
                    #[trigger] list@[b],
                ),
            forall|a: int, b: int|
                0 <= a < out@.len() - 1 && k <= b < list@.len() ==> !triplets::same_position(
                    #[trigger] out@[a],
                    #[trigger] list@[b],
                ),
            summed(list@, *plus, Seq::empty(), 0) == summed(list@, *plus, out@, k as int),
        decreases list@.len() - k,
    {
        let (i, j, v): (usize, usize, Real) = list[k];
        assert(list@[k as int].0 < rows && list@[k as int].2.finite());
        let n: usize = out.len();
        let same = n > 0 && out[n - 1].0 == i && out[n - 1].1 == j;
        let ghost before = out@;
        if same {
            let sum = plus(out[n - 1].2, v);
            if !sum.is_finite() {
                return None;
            }
            out.set(n - 1, (i, j, sum));
        } else {
            out.push((i, j, v));
        }
        proof {
            assert forall|b: int| k < b < list@.len() implies triplets::before(
                list@[k as int],
                #[trigger] list@[b],
            ) by {}
            if !same {
                assert forall|a: int, b: int| 0 <= a < out@.len() - 1 && k < b
                    < list@.len() implies !triplets::same_position(
                    #[trigger] out@[a],
                    #[trigger] list@[b],
                ) by {
                    assert(out@[a] == before[a]);
                    assert(triplets::before(before[a], list@[k as int]));
                    assert(triplets::before(list@[k as int], list@[b]));
                    if a == before.len() - 1 {
                        assert(!triplets::same_position(before[a], list@[k as int]));
                    } else {
                        assert(!triplets::same_position(before[a], list@[k as int]));
                    }
                }
                assert forall|a: int, b: int| 0 <= a < b < out@.len() implies triplets::before(
                    #[trigger] out@[a],
                    #[trigger] out@[b],
                ) && !triplets::same_position(out@[a], out@[b]) by {
                    assert(out@[a] == before[a]);
                    if b < before.len() {
                        assert(out@[b] == before[b]);
                    } else {
                        assert(out@[b] == list@[k as int]);
                        assert(triplets::before(before[a], list@[k as int]));
                    }
                }
            } else {
                assert forall|a: int, b: int| 0 <= a < b < out@.len() implies triplets::before(
                    #[trigger] out@[a],
                    #[trigger] out@[b],
                ) && !triplets::same_position(out@[a], out@[b]) by {
                    assert(triplets::before(before[a], before[b]));
                    assert(out@[a] == before[a]);
                }
                assert forall|a: int, b: int| 0 <= a < out@.len() && k < b
                    < list@.len() implies triplets::before(
                    #[trigger] out@[a],
                    #[trigger] list@[b],
                ) by {
                    assert(triplets::before(before[a], list@[b]));
                }
                assert forall|a: int, b: int| 0 <= a < out@.len() - 1 && k < b
                    < list@.len() implies !triplets::same_position(
                    #[trigger] out@[a],
                    #[trigger] list@[b],
                ) by {
                    assert(out@[a] == before[a]);
                    assert(!triplets::same_position(before[a], list@[b]));
                }
            }
        }
        k = k + 1;
    }
    Some(out)
}

impl CscMatrix {
    /// Build a matrix from arrays of rows, columns and values, in any order.
    /// Values at one position are added up, and zeros are dropped.
    pub fn from_triplets<P: Fn(Real, Real) -> Real>(
        rows: usize,
        columns: usize,
        row_indices: &Vec<usize>,
        column_indices: &Vec<usize>,
        values: &Vec<Real>,
        plus: &P,
    ) -> (built: Result<Self, MatrixError>)
        requires
            arithmetic::functional(*plus),
        ensures
            built_from(
                built,
                rows,
                columns,
                row_indices@,
                column_indices@,
                values@,
                *plus,
            ),
    {
        if row_indices.len() != column_indices.len() || row_indices.len() != values.len() {
            return Err(MatrixError::MismatchedTripletArrays);
        }
        let mut list: Vec<Triplet> = Vec::new();
        let ghost given = zipped(row_indices@, column_indices@, values@);
        let mut k: usize = 0;
        while k < values.len()
            invariant
                k <= values@.len(),
                row_indices@.len() == column_indices@.len() == values@.len(),
                given == zipped(row_indices@, column_indices@, values@),
                list@ == given.take(k as int),
                triplets::inside(list@, rows, columns),
                forall|k: int| 0 <= k < list@.len() ==> (#[trigger] list@[k]).2.finite(),
                triplet_fault(rows, columns, row_indices@, column_indices@, values@, 0)
                    == triplet_fault(
                    rows,
                    columns,
                    row_indices@,
                    column_indices@,
                    values@,
                    k as int,
                ),
            decreases values@.len() - k,
        {
            let (row, column, value): (usize, usize, Real) = (
                row_indices[k],
                column_indices[k],
                values[k],
            );
            if row >= rows {
                return Err(MatrixError::RowIndexOutOfBounds { row, rows });
            }
            if column >= columns {
                return Err(MatrixError::ColumnIndexOutOfBounds { column, columns });
            }
            if !value.is_finite() {
                return Err(MatrixError::NonFiniteValue);
            }
            list.push((row, column, value));
            k = k + 1;
            assert(list@ =~= given.take(k as int));
        }
        assert(given.take(k as int) =~= given);
        assert(triplets::inside(given, rows, columns));
        assert(forall|k: int| 0 <= k < given.len() ==> (#[trigger] given[k]).2.finite());
        triplets::sort_by_position(&mut list);
        proof {
            broadcast use vstd::seq_lib::group_to_multiset_ensures;

            assert forall|x: Triplet| list@.contains(x) implies given.contains(x) by {
                assert(list@.to_multiset().count(x) > 0);
            }
            assert forall|a: int| 0 <= a < list@.len() implies (#[trigger] list@[a]).0 < rows
                && list@[a].1 < columns && list@[a].2.finite() by {
                assert(list@.contains(list@[a]));
                assert(given.contains(list@[a]));
                let b = choose|b: int| 0 <= b < given.len() && given[b] == list@[a];
                assert(given[b].0 < rows);
            }
        }
        let ghost sorted = list@;
        let out = match sum_neighbours(&list, plus, rows, columns) {
            Some(out) => out,
            None => {
                let built: Result<Self, MatrixError> = Err(MatrixError::NonFiniteValue);
                assert(sums_to(built, rows, columns, given, sorted, *plus));
                return built;
            },
        };
        if columns == usize::MAX {
            let built: Result<Self, MatrixError> = Err(MatrixError::DimensionOverflow);
            assert(sums_to(built, rows, columns, given, sorted, *plus));
            return built;
        }
        proof {
            assert forall|i: usize, j: usize| !#[trigger] triplets::twice(out@, i, j) by {}
            assert(triplets::storable(out@));
        }
        match triplets::csc(rows, columns, out) {
            Ok(matrix) => {
                let built: Result<Self, MatrixError> = Ok(matrix);
                assert(sums_to(built, rows, columns, given, sorted, *plus));
                built
            },
            Err(Built::Matrix(error)) => Err(error),
            Err(Built::Duplicate(i, j)) => {
                assert(triplets::twice(out@, i, j));
                Err(MatrixError::UnsortedRowIndices)
            },
        }
    }
}

} // verus!
