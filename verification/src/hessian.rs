//! Rows of a symmetric matrix, construction from its upper triangle, and
//! packing its surviving variables into compressed columns.

use crate::linked::{self, Entries, NONE};
use crate::number::Real;
use crate::symmetric::{self, SymmetricMatrix};
use vstd::prelude::*;

verus! {

/// A row of a symmetric matrix, which is also its column.
#[derive(Clone, Copy)]
pub struct Row<'a> {
    matrix: &'a SymmetricMatrix,
    row: usize,
}

proof fn listing_with(
    entries: Seq<(usize, Real)>,
    matrix: Map<(int, int), Real>,
    i: int,
    at: int,
    key: usize,
    value: Real,
)
    requires
        linked::lists_line(entries, matrix.remove((i, key as int)), false, i),
        matrix.contains_key((i, key as int)),
        matrix[(i, key as int)] == value,
        0 <= at <= entries.len(),
        forall|a: int| 0 <= a < at ==> (#[trigger] entries[a]).0 < key,
        forall|a: int| at <= a < entries.len() ==> (#[trigger] entries[a]).0 > key,
    ensures
        linked::lists_line(entries.insert(at, (key, value)), matrix, false, i),
{
    let more = entries.insert(at, (key, value));
    let rest = matrix.remove((i, key as int));
    assert forall|a: int| 0 <= a < more.len() implies #[trigger] more[a] == (if a < at {
        entries[a]
    } else if a == at {
        (key, value)
    } else {
        entries[a - 1]
    }) by {}
    assert forall|a: int| 0 <= a < more.len() implies {
        &&& matrix.contains_key(linked::place(false, i, (#[trigger] more[a]).0 as int))
        &&& matrix[linked::place(false, i, more[a].0 as int)] == more[a].1
    } by {
        if a != at {
            let b = if a < at {
                a
            } else {
                a - 1
            };
            assert(rest.contains_key(linked::place(false, i, entries[b].0 as int)));
        }
    }
    assert forall|k: int| #[trigger] matrix.contains_key(linked::place(false, i, k)) implies exists|
        a: int,
    | 0 <= a < more.len() && (#[trigger] more[a]).0 == k by {
        if k == key {
            assert(more[at].0 == k);
        } else {
            assert(rest.contains_key(linked::place(false, i, k)));
            let b = choose|b: int| 0 <= b < entries.len() && (#[trigger] entries[b]).0 == k;
            if b < at {
                assert(more[b].0 == k);
            } else {
                assert(more[b + 1].0 == k);
            }
        }
    }
}

impl<'a> Row<'a> {
    pub closed spec fn wf(&self) -> bool {
        self.matrix.wf() && self.row < self.matrix.size()
    }

    pub closed spec fn matrix(&self) -> Map<(int, int), Real> {
        self.matrix@
    }

    pub closed spec fn line(&self) -> int {
        self.row as int
    }

    pub fn len(&self) -> (len: usize)
        requires
            self.wf(),
        ensures
            linked::line_items(self.matrix(), false, self.line()).finite(),
            len == linked::line_items(self.matrix(), false, self.line()).len(),
    {
        let ghost i = self.row as int;
        let off: usize = self.matrix.degree(self.row);
        let diagonal = self.matrix.get(self.row, self.row);
        proof {
            self.matrix.stored_positions();
            let all = linked::line_items(self.matrix@, false, i);
            let rest = linked::line_items(self.matrix@.remove((i, i)), false, i);
            if diagonal.zero() {
                assert(all =~= rest) by {
                    assert forall|k: int| all.contains(k) <==> rest.contains(k) by {
                        assert(linked::place(false, i, k) == (i, k));
                        if k == i {
                            assert(!self.matrix@.contains_key((i, i)));
                        }
                    }
                }
            } else {
                assert(self.matrix@.contains_key((i, i)));
                assert(all =~= rest.insert(i)) by {
                    assert forall|k: int| all.contains(k) <==> rest.insert(i).contains(k) by {
                        assert(linked::place(false, i, k) == (i, k));
                    }
                }
                assert(!rest.contains(i)) by {
                    assert(linked::place(false, i, i) == (i, i));
                }
            }
            let range = vstd::set_lib::set_int_range(0, self.matrix.size() as int);
            vstd::set_lib::lemma_int_range(0, self.matrix.size() as int);
            assert(all.subset_of(range)) by {
                assert forall|k: int| all.contains(k) implies range.contains(k) by {
                    assert(linked::place(false, i, k) == (i, k));
                    assert(self.matrix@.contains_key((i, k)));
                }
            }
            vstd::set_lib::lemma_len_subset(all, range);
        }
        if diagonal.is_zero() {
            off
        } else {
            off + 1
        }
    }

    pub fn is_empty(&self) -> (b: bool)
        requires
            self.wf(),
        ensures
            b == (linked::line_items(self.matrix(), false, self.line()).len() == 0),
    {
        self.len() == 0
    }

    /// The stored entries in increasing column order, the diagonal in its place.
    pub fn to_vec(&self) -> (entries: Entries)
        requires
            self.wf(),
        ensures
            linked::lists_line(entries@, self.matrix(), false, self.line()),
    {
        let ghost i = self.row as int;
        let mut entries = self.matrix.links(self.row);
        let diagonal = self.matrix.get(self.row, self.row);
        proof {
            self.matrix.stored_positions();
        }
        if diagonal.is_zero() {
            proof {
                assert(!self.matrix@.contains_key((i, i)));
                assert(self.matrix@.remove((i, i)) =~= self.matrix@);
            }
            return entries;
        }
        let mut at: usize = 0;
        while at < entries.len() && entries[at].0 < self.row
            invariant
                at <= entries@.len(),
                forall|a: int| 0 <= a < at ==> (#[trigger] entries@[a]).0 < self.row,
            decreases entries@.len() - at,
        {
            at = at + 1;
        }
        proof {
            assert(self.matrix@.contains_key((i, i)));
            assert forall|a: int| at <= a < entries@.len() implies (#[trigger] entries@[a]).0
                > self.row by {
                let rest = self.matrix@.remove((i, i));
                assert(rest.contains_key(linked::place(false, i, entries@[a].0 as int)));
                if a > at {
                    assert(entries@[at as int].0 < entries@[a].0);
                }
            }
            listing_with(entries@, self.matrix@, i, at as int, self.row, diagonal);
        }
        entries.insert(at, (self.row, diagonal));
        entries
    }
}

/// `matrix` mirrors the nonzero entries of an upper triangle given by columns.
pub open spec fn mirrors(matrix: Map<(int, int), Real>, columns: Seq<Entries>) -> bool {
    &&& forall|j: int, a: int|
        0 <= j < columns.len() && 0 <= a < columns[j]@.len() && !(
        #[trigger] columns[j]@[a]).1.zero() ==> {
            let (i, v) = columns[j]@[a];
            &&& matrix.contains_key((i as int, j))
            &&& matrix[(i as int, j)] == v
            &&& matrix.contains_key((j, i as int))
            &&& matrix[(j, i as int)] == v
        }
    &&& forall|i: int, j: int| #[trigger]
        matrix.contains_key((i, j)) ==> listed_above(columns, i, j)
}

pub open spec fn lesser(i: int, j: int) -> int {
    if i <= j {
        i
    } else {
        j
    }
}

pub open spec fn greater(i: int, j: int) -> int {
    if i <= j {
        j
    } else {
        i
    }
}

/// A nonzero entry for the position or its mirror image is listed.
pub open spec fn listed_above(columns: Seq<Entries>, i: int, j: int) -> bool {
    listed_before(columns, lesser(i, j), greater(i, j), columns.len() as int, 0)
}

/// Column `column` lists a nonzero for `row`, and does so before entry `a` of column `j`.
pub open spec fn listed_before(
    columns: Seq<Entries>,
    row: int,
    column: int,
    j: int,
    a: int,
) -> bool {
    &&& 0 <= column < columns.len()
    &&& exists|b: int|
        0 <= b < columns[column]@.len() && (column < j || (column == j && b < a)) && (
        #[trigger] columns[column]@[b]).0 == row && !columns[column]@[b].1.zero()
}

/// Entries of the first `n` columns together.
pub open spec fn entry_count(columns: Seq<Entries>, n: nat) -> nat
    decreases n,
{
    if n == 0 {
        0
    } else {
        entry_count(columns, (n - 1) as nat) + columns[n - 1]@.len()
    }
}

proof fn entry_count_monotone(columns: Seq<Entries>, n: nat, m: nat)
    requires
        n <= m,
    ensures
        entry_count(columns, n) <= entry_count(columns, m),
    decreases m,
{
    if n < m {
        entry_count_monotone(columns, n, (m - 1) as nat);
    }
}

/// The first `a` entries of column `j` and all earlier columns are mirrored,
/// and nothing else is.
#[verifier::opaque]
spec fn mirrored_to(
    matrix: Map<(int, int), Real>,
    columns: Seq<Entries>,
    j: int,
    a: int,
) -> bool {
    &&& forall|c: int, b: int|
        0 <= c < columns.len() && 0 <= b < columns[c]@.len() && (c < j || (c == j && b < a)) && !(
        #[trigger] columns[c]@[b]).1.zero() ==> {
            let (i, v) = columns[c]@[b];
            &&& matrix.contains_key((i as int, c))
            &&& matrix[(i as int, c)] == v
            &&& matrix.contains_key((c, i as int))
            &&& matrix[(c, i as int)] == v
        }
    &&& forall|i: int, k: int| #[trigger]
        matrix.contains_key((i, k)) ==> listed_before(columns, lesser(i, k), greater(i, k), j, a)
}

spec fn upper_triangle(columns: Seq<Entries>) -> bool {
    &&& forall|j: int, a: int|
        0 <= j < columns.len() && 0 <= a < columns[j]@.len() ==> (#[trigger] columns[j]@[a]).0 <= j
            && columns[j]@[a].1.finite()
    &&& forall|j: int, a: int, b: int|
        0 <= j < columns.len() && 0 <= a < b < columns[j]@.len() ==> (#[trigger] columns[j]@[a]).0
            < (#[trigger] columns[j]@[b]).0
}

proof fn mirror_one(matrix: Map<(int, int), Real>, columns: Seq<Entries>, j: int, a: int)
    requires
        mirrored_to(matrix, columns, j, a),
        upper_triangle(columns),
        0 <= j < columns.len(),
        0 <= a < columns[j]@.len(),
    ensures
        ({
            let (i, v) = columns[j]@[a];
            let next = if v.zero() {
                matrix
            } else {
                symmetric::coefficient_set(matrix, i as int, j, v)
            };
            &&& mirrored_to(next, columns, j, a + 1)
            &&& !matrix.contains_key((i as int, j))
            &&& !matrix.contains_key((j, i as int))
        }),
{
    reveal(mirrored_to);
    let (i, v) = columns[j]@[a];
    let next = if v.zero() {
        matrix
    } else {
        symmetric::coefficient_set(matrix, i as int, j, v)
    };
    assert(i <= j);
    assert(!matrix.contains_key((i as int, j)) && !matrix.contains_key((j, i as int))) by {
        if matrix.contains_key((i as int, j)) || matrix.contains_key((j, i as int)) {
            assert(listed_before(columns, i as int, j, j, a));
            let b = choose|b: int|
                0 <= b < columns[j]@.len() && (j < j || (j == j && b < a)) && (
                #[trigger] columns[j]@[b]).0 == i && !columns[j]@[b].1.zero();
            assert(columns[j]@[b].0 < columns[j]@[a].0);
        }
    }
    assert forall|c: int, b: int|
        0 <= c < columns.len() && 0 <= b < columns[c]@.len() && (c < j || (c == j && b < a + 1))
            && !(#[trigger] columns[c]@[b]).1.zero() implies {
        let (r, w) = columns[c]@[b];
        &&& next.contains_key((r as int, c))
        &&& next[(r as int, c)] == w
        &&& next.contains_key((c, r as int))
        &&& next[(c, r as int)] == w
    } by {
        assert(columns[c]@[b].0 <= c);
    }
    assert forall|r: int, k: int| #[trigger] next.contains_key((r, k)) implies listed_before(
        columns,
        lesser(r, k),
        greater(r, k),
        j,
        a + 1,
    ) by {
        if matrix.contains_key((r, k)) {
            listed_longer(columns, lesser(r, k), greater(r, k), j, a, j, a + 1);
        } else {
            assert(columns[j]@[a].0 == lesser(r, k));
        }
    }
}

proof fn listed_longer(
    columns: Seq<Entries>,
    row: int,
    column: int,
    j: int,
    a: int,
    j2: int,
    a2: int,
)
    requires
        listed_before(columns, row, column, j, a),
        j < j2 || (j == j2 && a <= a2),
    ensures
        listed_before(columns, row, column, j2, a2),
{
    let b = choose|b: int|
        0 <= b < columns[column]@.len() && (column < j || (column == j && b < a)) && (
        #[trigger] columns[column]@[b]).0 == row && !columns[column]@[b].1.zero();
    assert(columns[column]@[b].0 == row);
}

impl SymmetricMatrix {
    /// Build a matrix from the columns of its upper triangle, each in
    /// increasing row order. Zeros are dropped.
    pub fn from_upper_columns(columns: &Vec<Entries>) -> (matrix: Self)
        requires
            columns@.len() < NONE,
            entry_count(columns@, columns@.len()) < NONE,
            2 * entry_count(columns@, columns@.len()) <= usize::MAX,
            forall|j: int, a: int|
                0 <= j < columns@.len() && 0 <= a < columns@[j]@.len() ==> (
                #[trigger] columns@[j]@[a]).0 <= j && columns@[j]@[a].1.finite(),
            forall|j: int, a: int, b: int|
                0 <= j < columns@.len() && 0 <= a < b < columns@[j]@.len() ==> (
                #[trigger] columns@[j]@[a]).0 < (#[trigger] columns@[j]@[b]).0,
        ensures
            matrix.wf(),
            matrix.size() == columns@.len(),
            matrix.edits() == 0,
            mirrors(matrix@, columns@),
    {
        let mut matrix = Self::zeros(columns.len());
        let mut j: usize = 0;
        proof {
            assert(upper_triangle(columns@));
            assert(mirrored_to(matrix@, columns@, 0, 0)) by {
                reveal(mirrored_to);
            }
        }
        while j < columns.len()
            invariant
                j <= columns@.len(),
                matrix.wf(),
                matrix.size() == columns@.len(),
                matrix.edits() == 0,
                upper_triangle(columns@),
                entry_count(columns@, columns@.len()) < NONE,
                2 * entry_count(columns@, columns@.len()) <= usize::MAX,
                matrix@.dom().len() <= 2 * entry_count(columns@, j as nat),
                mirrored_to(matrix@, columns@, j as int, 0),
            decreases columns@.len() - j,
        {
            let column = &columns[j];
            let mut a: usize = 0;
            proof {
                entry_count_monotone(columns@, (j + 1) as nat, columns@.len());
            }
            while a < column.len()
                invariant
                    j < columns@.len(),
                    column@ == columns@[j as int]@,
                    a <= column@.len(),
                    matrix.wf(),
                    matrix.size() == columns@.len(),
                    matrix.edits() == 0,
                    upper_triangle(columns@),
                    entry_count(columns@, (j + 1) as nat) == entry_count(columns@, j as nat)
                        + column@.len(),
                    entry_count(columns@, (j + 1) as nat) < NONE,
                    2 * entry_count(columns@, (j + 1) as nat) <= usize::MAX,
                    matrix@.dom().len() <= 2 * (entry_count(columns@, j as nat) + a),
                    mirrored_to(matrix@, columns@, j as int, a as int),
                decreases column@.len() - a,
            {
                let (i, value): (usize, Real) = column[a];
                let ghost before = matrix@;
                proof {
                    matrix.stored_positions();
                    mirror_one(matrix@, columns@, j as int, a as int);
                    assert(columns@[j as int]@[a as int].0 <= j);
                    assert(columns@[j as int]@[a as int].1.finite());
                }
                if !value.is_zero() {
                    matrix.place(i, j, value);
                    proof {
                        assert(matrix@.dom() =~= before.dom().insert((i as int, j as int)).insert(
                            (j as int, i as int),
                        ));
                    }
                }
                a = a + 1;
            }
            proof {
                assert(mirrored_to(matrix@, columns@, j + 1, 0)) by {
                    reveal(mirrored_to);
                    assert forall|i: int, k: int| #[trigger]
                        matrix@.contains_key((i, k)) implies listed_before(
                        columns@,
                        lesser(i, k),
                        greater(i, k),
                        j + 1,
                        0,
                    ) by {
                        listed_longer(
                            columns@,
                            lesser(i, k),
                            greater(i, k),
                            j as int,
                            a as int,
                            j + 1,
                            0,
                        );
                    }
                }
            }
            j = j + 1;
        }
        proof {
            reveal(mirrored_to);
        }
        matrix
    }

    pub fn row(&self, row: usize) -> (line: Row<'_>)
        requires
            self.wf(),
            row < self.size(),
        ensures
            line.wf(),
            line.matrix() == self@,
            line.line() == row,
    {
        Row { matrix: self, row }
    }

    /// A column, which equals the row of the same index.
    pub fn column(&self, column: usize) -> (line: Row<'_>)
        requires
            self.wf(),
            column < self.size(),
        ensures
            line.wf(),
            line.matrix() == self@,
            line.line() == column,
    {
        self.row(column)
    }
}

} // verus!
