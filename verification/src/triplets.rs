//! Compressed columns from row, column and value triplets.

use crate::csc::{CscMatrix, MatrixError};
use crate::linked::Entries;
use crate::merge;
use crate::number::Real;
use crate::pack;
use vstd::prelude::*;

verus! {

/// The order by column and then by row.
pub open spec fn before(a: (usize, usize, Real), b: (usize, usize, Real)) -> bool {
    a.1 < b.1 || (a.1 == b.1 && a.0 <= b.0)
}

pub open spec fn same_position(a: (usize, usize, Real), b: (usize, usize, Real)) -> bool {
    a.0 == b.0 && a.1 == b.1
}

/// Triplets by column and then by row.
pub open spec fn sorted(list: Seq<(usize, usize, Real)>) -> bool {
    forall|a: int, b: int|
        0 <= a <= b < list.len() ==> before(#[trigger] list[a], #[trigger] list[b])
}

/// Calls `slice::sort_unstable_by_key` of the standard library with the column
/// and the row of a triplet as its key. Claimed of it: the same triplets, as
/// often each, by column and then by row.
#[verifier::external_body]
pub(crate) fn sort_by_position(list: &mut Vec<(usize, usize, Real)>)
    ensures
        sorted(final(list)@),
        final(list)@.to_multiset() == old(list)@.to_multiset(),
{
    list.sort_unstable_by_key(|entry| (entry.1, entry.0));
}

/// Two different triplets have this position.
pub open spec fn twice(list: Seq<(usize, usize, Real)>, i: usize, j: usize) -> bool {
    exists|a: int, b: int|
        0 <= a < b < list.len() && (#[trigger] list[a]).0 == i && list[a].1 == j && (
        #[trigger] list[b]).0 == i && list[b].1 == j
}

/// A value that is stored twice stands in two places.
proof fn counted_twice(list: Seq<(usize, usize, Real)>, x: (usize, usize, Real))
    requires
        list.to_multiset().count(x) >= 2,
    ensures
        exists|a: int, b: int| 0 <= a < b < list.len() && list[a] == x && list[b] == x,
{
    broadcast use vstd::seq_lib::group_to_multiset_ensures;

    assert(list.contains(x));
    let a = choose|a: int| 0 <= a < list.len() && list[a] == x;
    let rest = list.remove(a);
    assert(rest.to_multiset() =~= list.to_multiset().remove(x));
    assert(rest.to_multiset().count(x) >= 1);
    assert(rest.contains(x));
    let c = choose|c: int| 0 <= c < rest.len() && rest[c] == x;
    if c < a {
        assert(list[c] == x);
        assert(0 <= c < a < list.len() && list[c] == x && list[a] == x);
    } else {
        assert(list[c + 1] == x);
        assert(0 <= a < c + 1 < list.len() && list[a] == x && list[c + 1] == x);
    }
}

/// Reordering keeps repeated positions.
proof fn twice_is_kept(
    left: Seq<(usize, usize, Real)>,
    right: Seq<(usize, usize, Real)>,
    i: usize,
    j: usize,
)
    requires
        left.to_multiset() == right.to_multiset(),
        twice(left, i, j),
    ensures
        twice(right, i, j),
{
    broadcast use vstd::seq_lib::group_to_multiset_ensures;

    let (a, b) = choose|a: int, b: int|
        0 <= a < b < left.len() && (#[trigger] left[a]).0 == i && left[a].1 == j && (
        #[trigger] left[b]).0 == i && left[b].1 == j;
    let x = left[a];
    let y = left[b];
    if x == y {
        let rest = left.remove(a);
        assert(rest.to_multiset() =~= left.to_multiset().remove(x));
        assert(rest[b - 1] == x);
        assert(rest.contains(x));
        assert(rest.to_multiset().count(x) >= 1);
        assert(left.to_multiset().count(x) >= 2);
        counted_twice(right, x);
        let (c, d) = choose|c: int, d: int|
            0 <= c < d < right.len() && right[c] == x && right[d] == x;
        assert(right[c].0 == i && right[d].0 == i);
    } else {
        assert(left.contains(x) && left.contains(y));
        assert(right.to_multiset().count(x) > 0 && right.to_multiset().count(y) > 0);
        assert(right.contains(x) && right.contains(y));
        let c = choose|c: int| 0 <= c < right.len() && right[c] == x;
        let d = choose|d: int| 0 <= d < right.len() && right[d] == y;
        if c < d {
            assert(right[c].0 == i && right[d].0 == i);
        } else {
            assert(right[d].0 == i && right[c].0 == i);
        }
    }
}

/// Why a matrix could not be built.
#[derive(Clone, Copy, Debug, PartialEq, Eq, Structural)]
pub enum Built {
    Duplicate(usize, usize),
    Matrix(MatrixError),
}

/// The matrix holds exactly the nonzero triplets.
pub open spec fn holds(
    matrix: CscMatrix,
    rows: usize,
    columns: usize,
    list: Seq<(usize, usize, Real)>,
) -> bool {
    &&& matrix.wf()
    &&& matrix.row_count() == rows
    &&& matrix.column_count() == columns
    &&& forall|k: int|
        0 <= k < list.len() && !(#[trigger] list[k]).2.zero() ==> matrix.entries(
            list[k].1 as int,
        ).contains((list[k].0, list[k].2))
    &&& forall|j: int, e: (usize, Real)|
        0 <= j < columns && #[trigger] matrix.entries(j).contains(e) ==> !e.1.zero()
            && list.contains((e.0, j as usize, e.1))
}

/// All positions exist.
pub open spec fn inside(list: Seq<(usize, usize, Real)>, rows: usize, columns: usize) -> bool {
    forall|k: int| 0 <= k < list.len() ==> (#[trigger] list[k]).0 < rows && list[k].1 < columns
}

/// Every value that will be stored is finite.
pub open spec fn storable(list: Seq<(usize, usize, Real)>) -> bool {
    forall|k: int|
        0 <= k < list.len() && !(#[trigger] list[k]).2.zero() ==> list[k].2.finite()
}

/// The nonzero entries of column `j` among the first `n` triplets.
spec fn column_list(list: Seq<(usize, usize, Real)>, j: usize, n: nat) -> Seq<(usize, Real)>
    decreases n,
{
    if n == 0 {
        Seq::empty()
    } else {
        let (i, c, v) = list[n - 1];
        let less = column_list(list, j, (n - 1) as nat);
        if c == j && !v.zero() {
            less.push((i, v))
        } else {
            less
        }
    }
}

proof fn column_list_is_exact(list: Seq<(usize, usize, Real)>, j: usize, n: nat)
    requires
        n <= list.len(),
        sorted(list),
        forall|k: int|
            0 < k < list.len() ==> !same_position(#[trigger] list[k], list[k - 1]),
    ensures
        merge::increasing(column_list(list, j, n)),
        forall|e: (usize, Real)| #[trigger]
            column_list(list, j, n).contains(e) ==> !e.1.zero() && exists|k: int|
                0 <= k < n && #[trigger] list[k] == (e.0, j, e.1),
        forall|k: int|
            0 <= k < n && (#[trigger] list[k]).1 == j && !list[k].2.zero() ==> column_list(
                list,
                j,
                n,
            ).contains((list[k].0, list[k].2)),
    decreases n,
{
    if n > 0 {
        column_list_is_exact(list, j, (n - 1) as nat);
        let less = column_list(list, j, (n - 1) as nat);
        let more = column_list(list, j, n);
        let (i, c, v) = list[n - 1];
        if c == j && !v.zero() {
            assert forall|a: int, b: int| 0 <= a < b < more.len() implies (#[trigger] more[a]).0 < (
            #[trigger] more[b]).0 by {
                if b < less.len() {
                    assert(less[a].0 < less[b].0);
                } else {
                    assert(less.contains(less[a]));
                    let k = choose|k: int|
                        0 <= k < n - 1 && #[trigger] list[k] == (less[a].0, j, less[a].1);
                    assert(before(list[k], list[n - 1]));
                    assert(!same_position(list[n - 1], list[n - 2]));
                    assert(before(list[k], list[n - 2]));
                    assert(before(list[n - 2], list[n - 1]));
                }
            }
        }
        assert forall|e: (usize, Real)| #[trigger] more.contains(e) implies !e.1.zero() && exists|
            k: int,
        |
            0 <= k < n && #[trigger] list[k] == (e.0, j, e.1) by {
            let a = choose|a: int| 0 <= a < more.len() && more[a] == e;
            if a < less.len() {
                assert(less[a] == e);
                assert(less.contains(e));
                let k = choose|k: int| 0 <= k < n - 1 && #[trigger] list[k] == (e.0, j, e.1);
                assert(list[k] == (e.0, j, e.1));
            } else {
                assert(list[n - 1] == (e.0, j, e.1));
            }
        }
        assert forall|k: int|
            0 <= k < n && (#[trigger] list[k]).1 == j && !list[k].2.zero() implies more.contains(
            (list[k].0, list[k].2),
        ) by {
            if k < n - 1 {
                let e = (list[k].0, list[k].2);
                assert(less.contains(e));
                let a = choose|a: int| 0 <= a < less.len() && less[a] == e;
                assert(more[a] == e);
            } else {
                assert(more[less.len() as int] == (i, v));
            }
        }
    }
}

/// A repeated position shows between neighbours.
proof fn neighbours_suffice(list: Seq<(usize, usize, Real)>, i: usize, j: usize, n: int)
    requires
        sorted(list),
        0 <= n <= list.len(),
        forall|k: int| 0 < k < n ==> !same_position(#[trigger] list[k], list[k - 1]),
    ensures
        forall|a: int, b: int|
            0 <= a < b < n ==> !same_position(#[trigger] list[a], #[trigger] list[b]),
{
    assert forall|a: int, b: int| 0 <= a < b < n implies !same_position(
        #[trigger] list[a],
        #[trigger] list[b],
    ) by {
        assert(before(list[a], list[b - 1]));
        assert(before(list[b - 1], list[b]));
        assert(!same_position(list[b], list[b - 1]));
    }
}

/// Build a matrix, dropping zeros and rejecting repeated positions.
pub fn csc(rows: usize, columns: usize, list: Vec<(usize, usize, Real)>) -> (built: Result<
    CscMatrix,
    Built,
>)
    requires
        inside(list@, rows, columns),
    ensures
        match built {
            Err(Built::Duplicate(i, j)) => {
                &&& twice(list@, i, j)
                &&& forall|k: usize, l: usize|
                    l < j || (l == j && k < i) ==> !#[trigger] twice(list@, k, l)
            },
            Err(Built::Matrix(error)) => {
                &&& forall|i: usize, j: usize| !#[trigger] twice(list@, i, j)
                &&& !storable(list@)
                &&& error == MatrixError::NonFiniteValue
            },
            Ok(matrix) => {
                &&& forall|i: usize, j: usize| !#[trigger] twice(list@, i, j)
                &&& storable(list@)
                &&& holds(matrix, rows, columns, list@)
            },
        },
{
    let ghost start = list@;
    let mut work = list;
    sort_by_position(&mut work);
    proof {
        broadcast use vstd::seq_lib::group_to_multiset_ensures;

        assert forall|x: (usize, usize, Real)| work@.contains(x) <==> start.contains(x) by {
            assert(work@.contains(x) <==> work@.to_multiset().count(x) > 0);
            assert(start.contains(x) <==> start.to_multiset().count(x) > 0);
        }
        assert forall|k: int| 0 <= k < work@.len() implies (#[trigger] work@[k]).0 < rows
            && work@[k].1 < columns by {
            assert(work@.contains(work@[k]));
            assert(start.contains(work@[k]));
            let a = choose|a: int| 0 <= a < start.len() && start[a] == work@[k];
            assert(start[a].0 < rows);
        }
    }
    let mut at: usize = 1;
    while at < work.len()
        invariant
            1 <= at,
            start == list@,
            at <= work@.len() || work@.len() == 0,
            sorted(work@),
            start.to_multiset() == work@.to_multiset(),
            forall|k: int| 0 < k < at ==> !same_position(#[trigger] work@[k], work@[k - 1]),
        decreases work@.len() - at,
    {
        if work[at].0 == work[at - 1].0 && work[at].1 == work[at - 1].1 {
            let i: usize = work[at].0;
            let j: usize = work[at].1;
            proof {
                assert(0 <= at - 1 < at < work@.len() && work@[at - 1].0 == i && work@[at - 1].1
                    == j && work@[at as int].0 == i && work@[at as int].1 == j);
                assert(twice(work@, i, j));
                twice_is_kept(work@, start, i, j);
                assert forall|k: usize, l: usize|
                    l < j || (l == j && k < i) implies !#[trigger] twice(start, k, l) by {
                    if twice(start, k, l) {
                        twice_is_kept(start, work@, k, l);
                        let (a, b) = choose|a: int, b: int|
                            0 <= a < b < work@.len() && (#[trigger] work@[a]).0 == k && work@[a].1
                                == l && (#[trigger] work@[b]).0 == k && work@[b].1 == l;
                        if b >= at {
                            assert(before(work@[at as int], work@[b]));
                        } else {
                            neighbours_suffice(work@, k, l, at as int);
                        }
                    }
                }
            }
            return Err(Built::Duplicate(i, j));
        }
        at = at + 1;
    }
    proof {
        neighbours_suffice(work@, 0, 0, work@.len() as int);
        assert forall|i: usize, j: usize| !#[trigger] twice(start, i, j) by {
            if twice(start, i, j) {
                twice_is_kept(start, work@, i, j);
                let (a, b) = choose|a: int, b: int|
                    0 <= a < b < work@.len() && (#[trigger] work@[a]).0 == i && work@[a].1 == j && (
                    #[trigger] work@[b]).0 == i && work@[b].1 == j;
                assert(!same_position(work@[a], work@[b]));
            }
        }
    }
    let mut lists: Vec<Entries> = Vec::new();
    let mut j: usize = 0;
    while j < columns
        invariant
            j <= columns,
            lists@.len() == j,
            forall|c: int|
                0 <= c < j ==> (#[trigger] lists@[c])@ == column_list(work@, c as usize, 0),
        decreases columns - j,
    {
        lists.push(Vec::new());
        j = j + 1;
    }
    let mut k: usize = 0;
    while k < work.len()
        invariant
            k <= work@.len(),
            start == list@,
            lists@.len() == columns,
            forall|k: int|
                0 <= k < work@.len() ==> (#[trigger] work@[k]).0 < rows && work@[k].1 < columns,
            forall|x: (usize, usize, Real)| work@.contains(x) <==> start.contains(x),
            forall|a: int|
                0 <= a < k && !(#[trigger] work@[a]).2.zero() ==> work@[a].2.finite(),
            forall|i: usize, j: usize| !#[trigger] twice(start, i, j),
            forall|c: int|
                0 <= c < columns ==> (#[trigger] lists@[c])@ == column_list(
                    work@,
                    c as usize,
                    k as nat,
                ),
        decreases work@.len() - k,
    {
        let (i, c, v): (usize, usize, Real) = work[k];
        assert(work@[k as int].1 < columns);
        if !v.is_zero() {
            if !v.is_finite() {
                proof {
                    assert(work@.contains(work@[k as int]));
                    assert(start.contains(work@[k as int]));
                    let a = choose|a: int| 0 <= a < start.len() && start[a] == work@[k as int];
                    assert(!start[a].2.zero() && !start[a].2.finite());
                }
                return Err(Built::Matrix(MatrixError::NonFiniteValue));
            }
            let ghost old = lists@;
            let mut entries: Entries = Vec::new();
            std::mem::swap(&mut entries, &mut lists[c]);
            entries.push((i, v));
            lists.set(c, entries);
            assert forall|d: int| 0 <= d < columns implies (#[trigger] lists@[d])@ == column_list(
                work@,
                d as usize,
                (k + 1) as nat,
            ) by {
                assert(old[d]@ == column_list(work@, d as usize, k as nat));
            }
        }
        k = k + 1;
    }
    let matrix = pack::pack_columns(rows, &lists);
    proof {
        assert forall|j: int| 0 <= j < columns implies pack::column_fits(
            (#[trigger] lists@[j])@,
            rows,
        ) by {
            column_list_is_exact(work@, j as usize, work@.len());
            let entries = lists@[j]@;
            assert forall|a: int| 0 <= a < entries.len() implies (#[trigger] entries[a]).0 < rows
                && entries[a].1.finite() by {
                assert(entries.contains(entries[a]));
                let k = choose|k: int|
                    0 <= k < work@.len() && #[trigger] work@[k] == (
                        entries[a].0,
                        j as usize,
                        entries[a].1,
                    );
                assert(work@[k].0 < rows);
            }
        }
        assert forall|k: int|
            0 <= k < start.len() && !(#[trigger] start[k]).2.zero() implies matrix.entries(
            start[k].1 as int,
        ).contains((start[k].0, start[k].2)) by {
            assert(start.contains(start[k]));
            assert(work@.contains(start[k]));
            let a = choose|a: int| 0 <= a < work@.len() && work@[a] == start[k];
            column_list_is_exact(work@, start[k].1, work@.len());
            assert(work@[a].1 < columns);
            assert(matrix.entries(start[k].1 as int) == lists@[start[k].1 as int]@);
        }
        assert forall|j: int, e: (usize, Real)|
            0 <= j < columns && #[trigger] matrix.entries(j).contains(e) implies !e.1.zero()
            && start.contains((e.0, j as usize, e.1)) by {
            assert(matrix.entries(j) == lists@[j]@);
            column_list_is_exact(work@, j as usize, work@.len());
            assert(column_list(work@, j as usize, work@.len()).contains(e));
            let k = choose|k: int|
                0 <= k < work@.len() && #[trigger] work@[k] == (e.0, j as usize, e.1);
            assert(work@.contains(work@[k]));
        }
        assert forall|k: int| 0 <= k < start.len() && !(#[trigger] start[k]).2.zero() implies
            start[k].2.finite() by {
            assert(start.contains(start[k]));
            assert(work@.contains(start[k]));
            let a = choose|a: int| 0 <= a < work@.len() && work@[a] == start[k];
            assert(work@[a].2.finite());
        }
    }
    Ok(matrix)
}

} // verus!
