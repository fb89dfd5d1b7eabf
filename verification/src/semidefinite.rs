//! Splitting the packed triangle of a semidefinite block into principal blocks.

use crate::components;
use crate::cone;
use vstd::prelude::*;

verus! {

/// Coordinate of entry `(i, j)` with `i <= j`.
pub open spec fn coordinate(i: int, j: int) -> int {
    cone::triangle(j) + i
}

/// Compute a coordinate that lies inside a block of known length.
pub fn packed_index(i: usize, j: usize, length: usize) -> (k: usize)
    requires
        i <= j,
        coordinate(i as int, j as int) < length,
    ensures
        k == coordinate(i as int, j as int),
{
    proof {
        cone::triangle_step(j as int);
        cone::triangle_monotone(0, j as int);
        assert(j < usize::MAX) by {
            if j == usize::MAX {
                assert(j * (j + 1) > 2 * usize::MAX) by (nonlinear_arith)
                    requires
                        j >= 3,
                        j == usize::MAX,
                ;
            }
        }
    }
    if j % 2 == 0 {
        assert((j / 2) * (j + 1) == cone::triangle(j as int)) by (nonlinear_arith)
            requires
                j % 2 == 0,
                2 * cone::triangle(j as int) == j * (j + 1),
        ;
        (j / 2) * (j + 1) + i
    } else {
        proof {
            let half = (j + 1) / 2;
            assert(j + 1 == 2 * half);
            assert(j * (2 * half) == 2 * (j * half)) by (nonlinear_arith);
        }
        j * ((j + 1) / 2) + i
    }
}

/// The diagonal rows of the classes with one member.
pub open spec fn singles_of(groups: Seq<Seq<usize>>, rows: Seq<usize>) -> Seq<usize>
    decreases groups.len(),
{
    if groups.len() == 0 {
        Seq::empty()
    } else {
        let before = singles_of(groups.drop_last(), rows);
        let group = groups.last();
        if group.len() == 1 {
            before.push(rows[coordinate(group[0] as int, group[0] as int)])
        } else {
            before
        }
    }
}

/// The first `i` rows of the last of the packed columns of a class.
pub open spec fn packed_column(rows: Seq<usize>, group: Seq<usize>, j: int, i: nat) -> Seq<usize> {
    Seq::new(i, |a: int| rows[coordinate(group[a] as int, group[j] as int)])
}

/// The rows of the principal block of a class, packed by columns.
pub open spec fn packed_rows(rows: Seq<usize>, group: Seq<usize>, columns: nat) -> Seq<usize>
    decreases columns,
{
    if columns == 0 {
        Seq::empty()
    } else {
        packed_rows(rows, group, (columns - 1) as nat) + packed_column(
            rows,
            group,
            columns - 1,
            columns,
        )
    }
}

/// The classes with several members.
pub open spec fn larger(groups: Seq<Seq<usize>>) -> Seq<Seq<usize>>
    decreases groups.len(),
{
    if groups.len() == 0 {
        Seq::empty()
    } else if groups.last().len() == 1 {
        larger(groups.drop_last())
    } else {
        larger(groups.drop_last()).push(groups.last())
    }
}

/// The rows of column `j` among the first `i` whose two indices differ in label.
pub open spec fn crossing_column(
    rows: Seq<usize>,
    labels: Seq<usize>,
    j: int,
    i: nat,
) -> Seq<usize>
    decreases i,
{
    if i == 0 {
        Seq::empty()
    } else {
        let before = crossing_column(rows, labels, j, (i - 1) as nat);
        if labels[i - 1] == labels[j] {
            before
        } else {
            before.push(rows[coordinate(i - 1, j)])
        }
    }
}

/// The rows between different classes.
pub open spec fn crossing_rows(rows: Seq<usize>, labels: Seq<usize>, columns: nat) -> Seq<usize>
    decreases columns,
{
    if columns == 0 {
        Seq::empty()
    } else {
        crossing_rows(rows, labels, (columns - 1) as nat) + crossing_column(
            rows,
            labels,
            columns - 1,
            (columns - 1) as nat,
        )
    }
}

/// The views of a list of lists.
pub open spec fn views(lists: Seq<Vec<usize>>) -> Seq<Seq<usize>> {
    Seq::new(lists.len(), |g: int| lists[g]@)
}

/// What the classes of a labelling are: nonempty, increasing, complete and
/// ordered by label.
pub open spec fn classes_of(groups: Seq<Seq<usize>>, labels: Seq<usize>) -> bool {
    &&& forall|g: int| 0 <= g < groups.len() ==> (#[trigger] groups[g]).len() > 0
    &&& forall|g: int, a: int|
        0 <= g < groups.len() && 0 <= a < groups[g].len() ==> (#[trigger] groups[g][a])
            < labels.len() && labels[groups[g][a] as int] == labels[groups[g][0] as int]
    &&& forall|g: int, a: int, b: int|
        0 <= g < groups.len() && 0 <= a < b < groups[g].len() ==> (#[trigger] groups[g][a]) < (
        #[trigger] groups[g][b])
    &&& forall|g: int, h: int|
        #![trigger groups[g], groups[h]]
        0 <= g < h < groups.len() ==> labels[groups[g][0] as int] < labels[groups[h][0] as int]
}

/// The classes up to a label bound are nonempty, increasing and ordered by label.
pub proof fn classes_are_exact(labels: Seq<usize>, bound: nat)
    requires
        labels.len() <= usize::MAX,
        bound <= usize::MAX,
    ensures
        classes_of(components::classes(labels, bound), labels),
        forall|g: int|
            0 <= g < components::classes(labels, bound).len() ==> labels[(
            #[trigger] components::classes(labels, bound)[g])[0] as int] < bound,
        forall|i: int|
            0 <= i < labels.len() && #[trigger] labels[i] < bound ==> exists|g: int|
                0 <= g < components::classes(labels, bound).len() && (
                #[trigger] components::classes(labels, bound)[g]).contains(i as usize),
    decreases bound,
{
    if bound > 0 {
        let less = (bound - 1) as nat;
        classes_are_exact(labels, less);
        components::members_are_exact(labels, less as usize, labels.len());
        let before = components::classes(labels, less);
        let after = components::classes(labels, bound);
        let last = components::members(labels, less as usize, labels.len());
        if last.len() > 0 {
            assert(after == before.push(last));
            assert(last[0] < labels.len() && labels[last[0] as int] == less);
        }
        assert forall|i: int| 0 <= i < labels.len() && #[trigger] labels[i] < bound implies exists|
            g: int,
        |
            0 <= g < after.len() && (#[trigger] after[g]).contains(i as usize) by {
            if labels[i] < less {
                let g = choose|g: int|
                    0 <= g < before.len() && (#[trigger] before[g]).contains(i as usize);
                assert(after[g] == before[g]);
            } else {
                assert(last.contains(i as usize));
                let a = choose|a: int| 0 <= a < last.len() && last[a] == i as usize;
                assert(after[before.len() as int] == last);
            }
        }
    }
}

/// A row at the coordinate of two members of one class.
pub open spec fn inside(rows: Seq<usize>, group: Seq<usize>, row: usize, a: int, b: int) -> bool {
    0 <= a <= b < group.len() && row == rows[coordinate(group[a] as int, group[b] as int)]
}

/// A row at the coordinate of two indices with different labels.
pub open spec fn across(rows: Seq<usize>, labels: Seq<usize>, row: usize, i: int, j: int) -> bool {
    0 <= i < j < labels.len() && labels[i] != labels[j] && row == rows[coordinate(i, j)]
}

/// A row on the diagonal of a class with one member.
pub open spec fn on_diagonal(groups: Seq<Seq<usize>>, rows: Seq<usize>, row: usize) -> bool {
    exists|g: int|
        0 <= g < groups.len() && (#[trigger] groups[g]).len() == 1 && inside(
            rows,
            groups[g],
            row,
            0,
            0,
        )
}

/// A row of the principal block of the first `columns` members of a class.
pub open spec fn in_block(rows: Seq<usize>, group: Seq<usize>, columns: nat, row: usize) -> bool {
    exists|a: int, b: int| b < columns && #[trigger] inside(rows, group, row, a, b)
}

/// A row between classes, among the first `i` of column `j`.
pub open spec fn in_column(
    rows: Seq<usize>,
    labels: Seq<usize>,
    j: int,
    i: nat,
    row: usize,
) -> bool {
    exists|a: int| a < i && #[trigger] across(rows, labels, row, a, j)
}

/// A row between classes, in one of the first `columns` columns.
pub open spec fn in_crossing(
    rows: Seq<usize>,
    labels: Seq<usize>,
    columns: nat,
    row: usize,
) -> bool {
    exists|a: int, b: int| b < columns && #[trigger] across(rows, labels, row, a, b)
}

/// Equal rows of a triangle lie at equal coordinates.
proof fn same_row(rows: Seq<usize>, order: int, i: int, j: int, k: int, l: int)
    requires
        rows.no_duplicates(),
        rows.len() == cone::triangle(order),
        0 <= i <= j < order,
        0 <= k <= l < order,
        rows[coordinate(i, j)] == rows[coordinate(k, l)],
    ensures
        i == k,
        j == l,
{
    cone::coordinates_are_distinct(i, j, k, l, order);
    cone::coordinates_are_distinct(k, l, i, j, order);
}

proof fn singles_are_diagonal(
    groups: Seq<Seq<usize>>,
    rows: Seq<usize>,
    labels: Seq<usize>,
)
    requires
        rows.no_duplicates(),
        rows.len() == cone::triangle(labels.len() as int),
        classes_of(groups, labels),
    ensures
        singles_of(groups, rows).no_duplicates(),
        singles_of(groups, rows).len() <= groups.len(),
        forall|s: int|
            0 <= s < singles_of(groups, rows).len() ==> on_diagonal(
                groups,
                rows,
                #[trigger] singles_of(groups, rows)[s],
            ),
    decreases groups.len(),
{
    if groups.len() > 0 {
        let less = groups.drop_last();
        assert forall|g: int| 0 <= g < less.len() implies #[trigger] less[g] == groups[g] by {}
        singles_are_diagonal(less, rows, labels);
        let before = singles_of(less, rows);
        let after = singles_of(groups, rows);
        let last = groups.last();
        assert forall|s: int| 0 <= s < after.len() implies on_diagonal(
            groups,
            rows,
            #[trigger] after[s],
        ) by {
            if s < before.len() {
                assert(on_diagonal(less, rows, before[s]));
                let g = choose|g: int|
                    0 <= g < less.len() && (#[trigger] less[g]).len() == 1 && inside(
                        rows,
                        less[g],
                        before[s],
                        0,
                        0,
                    );
                assert(inside(rows, groups[g], after[s], 0, 0));
            } else {
                assert(inside(rows, groups[groups.len() - 1], after[s], 0, 0));
            }
        }
        if last.len() == 1 {
            assert forall|s: int| 0 <= s < before.len() implies before[s] != after.last() by {
                assert(on_diagonal(less, rows, before[s]));
                let g = choose|g: int|
                    0 <= g < less.len() && (#[trigger] less[g]).len() == 1 && inside(
                        rows,
                        less[g],
                        before[s],
                        0,
                        0,
                    );
                assert(less[g][0] < labels.len());
                assert(groups[groups.len() - 1][0] < labels.len());
                assert(labels[groups[g][0] as int] < labels[groups[groups.len() - 1][0] as int]);
                if before[s] == after.last() {
                    same_row(
                        rows,
                        labels.len() as int,
                        groups[g][0] as int,
                        groups[g][0] as int,
                        last[0] as int,
                        last[0] as int,
                    );
                }
            }
        }
    }
}

proof fn packed_rows_are_inside(
    rows: Seq<usize>,
    group: Seq<usize>,
    columns: nat,
    order: int,
)
    requires
        rows.no_duplicates(),
        rows.len() == cone::triangle(order),
        columns <= group.len(),
        forall|a: int| 0 <= a < group.len() ==> (#[trigger] group[a]) < order,
        forall|a: int, b: int|
            0 <= a < b < group.len() ==> (#[trigger] group[a]) < (#[trigger] group[b]),
    ensures
        packed_rows(rows, group, columns).no_duplicates(),
        packed_rows(rows, group, columns).len() == cone::triangle(columns as int),
        forall|s: int|
            0 <= s < packed_rows(rows, group, columns).len() ==> in_block(
                rows,
                group,
                columns,
                #[trigger] packed_rows(rows, group, columns)[s],
            ),
        forall|a: int, b: int|
            0 <= a <= b < columns ==> packed_rows(rows, group, columns).contains(
                rows[#[trigger] coordinate(group[a] as int, group[b] as int)],
            ),
    decreases columns,
{
    if columns > 0 {
        let less = (columns - 1) as nat;
        packed_rows_are_inside(rows, group, less, order);
        cone::triangle_step(less as int);
        let before = packed_rows(rows, group, less);
        let column = packed_column(rows, group, less as int, columns);
        let after = packed_rows(rows, group, columns);
        assert forall|s: int| 0 <= s < column.len() implies inside(
            rows,
            group,
            #[trigger] column[s],
            s,
            less as int,
        ) by {}
        assert forall|s: int| 0 <= s < after.len() implies in_block(
            rows,
            group,
            columns,
            #[trigger] after[s],
        ) by {
            if s < before.len() {
                assert(after[s] == before[s]);
                assert(in_block(rows, group, less, before[s]));
                let (a, b) = choose|a: int, b: int|
                    b < less && #[trigger] inside(rows, group, before[s], a, b);
                assert(inside(rows, group, after[s], a, b));
            } else {
                assert(after[s] == column[s - before.len()]);
                assert(inside(rows, group, after[s], s - before.len(), less as int));
            }
        }
        assert forall|s: int, t: int| 0 <= s < after.len() && 0 <= t < after.len() && s
            != t implies after[s] != after[t] by {
            if s < before.len() && t < before.len() {
                assert(after[s] == before[s] && after[t] == before[t]);
            } else if s >= before.len() && t >= before.len() {
                let a = s - before.len();
                let b = t - before.len();
                assert(after[s] == column[a] && after[t] == column[b]);
                if after[s] == after[t] {
                    same_row(
                        rows,
                        order,
                        group[a] as int,
                        group[less as int] as int,
                        group[b] as int,
                        group[less as int] as int,
                    );
                }
            } else {
                let (low, high) = if s < before.len() {
                    (s, t)
                } else {
                    (t, s)
                };
                assert(after[low] == before[low]);
                assert(after[high] == column[high - before.len()]);
                assert(in_block(rows, group, less, before[low]));
                let (a, b) = choose|a: int, b: int|
                    b < less && #[trigger] inside(rows, group, before[low], a, b);
                if after[low] == after[high] {
                    same_row(
                        rows,
                        order,
                        group[a] as int,
                        group[b] as int,
                        group[high - before.len()] as int,
                        group[less as int] as int,
                    );
                }
            }
        }
        assert forall|a: int, b: int| 0 <= a <= b < columns implies after.contains(
            rows[#[trigger] coordinate(group[a] as int, group[b] as int)],
        ) by {
            let row = rows[coordinate(group[a] as int, group[b] as int)];
            if b < less {
                assert(before.contains(row));
                let s = choose|s: int| 0 <= s < before.len() && before[s] == row;
                assert(after[s] == row);
            } else {
                assert(column[a] == row);
                assert(after[before.len() + a] == row);
            }
        }
    } else {
        cone::triangle_step(0);
    }
}

proof fn crossing_column_is_across(rows: Seq<usize>, labels: Seq<usize>, j: int, i: nat)
    requires
        rows.no_duplicates(),
        rows.len() == cone::triangle(labels.len() as int),
        i <= j < labels.len(),
    ensures
        crossing_column(rows, labels, j, i).no_duplicates(),
        crossing_column(rows, labels, j, i).len() <= i,
        forall|s: int|
            0 <= s < crossing_column(rows, labels, j, i).len() ==> in_column(
                rows,
                labels,
                j,
                i,
                #[trigger] crossing_column(rows, labels, j, i)[s],
            ),
    decreases i,
{
    if i > 0 {
        let less = (i - 1) as nat;
        crossing_column_is_across(rows, labels, j, less);
        let before = crossing_column(rows, labels, j, less);
        let after = crossing_column(rows, labels, j, i);
        assert forall|s: int| 0 <= s < after.len() implies in_column(
            rows,
            labels,
            j,
            i,
            #[trigger] after[s],
        ) by {
            if s < before.len() {
                assert(in_column(rows, labels, j, less, before[s]));
                let a = choose|a: int| a < less && across(rows, labels, before[s], a, j);
                assert(across(rows, labels, after[s], a, j));
            } else {
                assert(across(rows, labels, after[s], less as int, j));
            }
        }
        if labels[i - 1] != labels[j] {
            assert forall|s: int| 0 <= s < before.len() implies before[s] != after.last() by {
                assert(in_column(rows, labels, j, less, before[s]));
                let a = choose|a: int| a < less && across(rows, labels, before[s], a, j);
                if before[s] == after.last() {
                    same_row(rows, labels.len() as int, a, j, less as int, j);
                }
            }
        }
    }
}

proof fn crossing_rows_are_across(rows: Seq<usize>, labels: Seq<usize>, columns: nat)
    requires
        rows.no_duplicates(),
        rows.len() == cone::triangle(labels.len() as int),
        columns <= labels.len(),
    ensures
        crossing_rows(rows, labels, columns).no_duplicates(),
        crossing_rows(rows, labels, columns).len() <= cone::triangle(columns as int),
        forall|s: int|
            0 <= s < crossing_rows(rows, labels, columns).len() ==> in_crossing(
                rows,
                labels,
                columns,
                #[trigger] crossing_rows(rows, labels, columns)[s],
            ),
    decreases columns,
{
    if columns > 0 {
        let less = (columns - 1) as nat;
        cone::triangle_step(less as int);
        crossing_rows_are_across(rows, labels, less);
        crossing_column_is_across(rows, labels, less as int, less);
        let before = crossing_rows(rows, labels, less);
        let column = crossing_column(rows, labels, less as int, less);
        let after = crossing_rows(rows, labels, columns);
        assert forall|s: int| 0 <= s < after.len() implies in_crossing(
            rows,
            labels,
            columns,
            #[trigger] after[s],
        ) by {
            if s < before.len() {
                assert(after[s] == before[s]);
                assert(in_crossing(rows, labels, less, before[s]));
                let (a, b) = choose|a: int, b: int|
                    b < less && #[trigger] across(rows, labels, before[s], a, b);
                assert(across(rows, labels, after[s], a, b));
            } else {
                let t = s - before.len();
                assert(after[s] == column[t]);
                assert(in_column(rows, labels, less as int, less, column[t]));
                let a = choose|a: int|
                    a < less && across(rows, labels, column[t], a, less as int);
                assert(across(rows, labels, after[s], a, less as int));
            }
        }
        assert forall|s: int, t: int| 0 <= s < after.len() && 0 <= t < after.len() && s
            != t implies after[s] != after[t] by {
            if s < before.len() && t < before.len() {
                assert(after[s] == before[s] && after[t] == before[t]);
            } else if s >= before.len() && t >= before.len() {
                assert(after[s] == column[s - before.len()]);
                assert(after[t] == column[t - before.len()]);
            } else {
                let (low, high) = if s < before.len() {
                    (s, t)
                } else {
                    (t, s)
                };
                assert(after[low] == before[low]);
                assert(after[high] == column[high - before.len()]);
                assert(in_crossing(rows, labels, less, before[low]));
                let (a, b) = choose|a: int, b: int|
                    b < less && #[trigger] across(rows, labels, before[low], a, b);
                let top = column[high - before.len()];
                assert(in_column(rows, labels, less as int, less, top));
                let c = choose|c: int| c < less && across(rows, labels, top, c, less as int);
                if after[low] == after[high] {
                    same_row(rows, labels.len() as int, a, b, c, less as int);
                }
            }
        }
    }
}

/// The larger classes are among the classes, in their order.
pub proof fn larger_classes(groups: Seq<Seq<usize>>, labels: Seq<usize>)
    requires
        classes_of(groups, labels),
    ensures
        classes_of(larger(groups), labels),
        larger(groups).len() <= groups.len(),
        forall|h: int|
            0 <= h < larger(groups).len() ==> (#[trigger] larger(groups)[h]).len() > 1
                && groups.contains(larger(groups)[h]),
    decreases groups.len(),
{
    if groups.len() > 0 {
        let less = groups.drop_last();
        assert forall|g: int| 0 <= g < less.len() implies #[trigger] less[g] == groups[g] by {}
        larger_classes(less, labels);
        let before = larger(less);
        let after = larger(groups);
        assert forall|h: int| 0 <= h < after.len() implies (#[trigger] after[h]).len() > 1
            && groups.contains(after[h]) by {
            if h < before.len() {
                assert(after[h] == before[h]);
                assert(less.contains(before[h]));
                let g = choose|g: int| 0 <= g < less.len() && less[g] == before[h];
                assert(groups[g] == after[h]);
            } else {
                assert(after[h] == groups[groups.len() - 1]);
                assert(groups[groups.len() - 1].len() > 0);
            }
        }
        if groups.last().len() != 1 {
            assert forall|g: int, h: int|
                #![trigger after[g], after[h]]
                0 <= g < h < after.len() implies labels[after[g][0] as int]
                < labels[after[h][0] as int] by {
                if h < before.len() {
                    assert(after[g] == before[g] && after[h] == before[h]);
                } else {
                    assert(after[g] == before[g]);
                    assert(less.contains(before[g]));
                    let f = choose|f: int| 0 <= f < less.len() && less[f] == before[g];
                    assert(groups[f] == after[g]);
                    assert(after[h] == groups[groups.len() - 1]);
                }
            }
            assert forall|g: int, a: int|
                0 <= g < after.len() && 0 <= a < after[g].len() implies (#[trigger] after[g][a])
                < labels.len() && labels[after[g][a] as int] == labels[after[g][0] as int] by {
                if g < before.len() {
                    assert(after[g] == before[g]);
                    assert(before[g][a] == after[g][a]);
                } else {
                    assert(after[g][a] == groups[groups.len() - 1][a]);
                }
            }
            assert forall|g: int, a: int, b: int|
                0 <= g < after.len() && 0 <= a < b < after[g].len() implies (
            #[trigger] after[g][a]) < (#[trigger] after[g][b]) by {
                if g < before.len() {
                    assert(before[g][a] == after[g][a] && before[g][b] == after[g][b]);
                } else {
                    assert(after[g][a] == groups[groups.len() - 1][a]);
                    assert(after[g][b] == groups[groups.len() - 1][b]);
                }
            }
        }
    }
}

/// The parts of a triangle split along its classes.
pub open spec fn split_parts(
    split: Split,
    rows: Seq<usize>,
    labels: Seq<usize>,
    groups: Seq<Seq<usize>>,
) -> bool {
    &&& split.singles@ == singles_of(groups, rows)
    &&& split.blocks@.len() == larger(groups).len()
    &&& split.orders@.len() == split.blocks@.len()
    &&& forall|g: int|
        0 <= g < split.blocks@.len() ==> {
            &&& (#[trigger] split.blocks@[g])@ == packed_rows(
                rows,
                larger(groups)[g],
                larger(groups)[g].len(),
            )
            &&& split.orders@[g] == larger(groups)[g].len()
        }
    &&& split.rest@ == crossing_rows(rows, labels, labels.len())
}

/// The rows of a split part are rows of the triangle.
proof fn part_row(rows: Seq<usize>, order: int, i: int, j: int)
    requires
        rows.len() == cone::triangle(order),
        0 <= i <= j < order,
    ensures
        rows.contains(rows[coordinate(i, j)]),
{
    cone::coordinates_are_distinct(i, j, i, j, order);
}

/// Splitting a triangle of distinct rows leaves no row in two places: the
/// singles, each block and the rest are lists of distinct rows of the triangle
/// with nothing in common.
pub proof fn split_parts_are_disjoint(
    split: Split,
    rows: Seq<usize>,
    labels: Seq<usize>,
    groups: Seq<Seq<usize>>,
)
    requires
        rows.no_duplicates(),
        rows.len() == cone::triangle(labels.len() as int),
        classes_of(groups, labels),
        split_parts(split, rows, labels, groups),
    ensures
        split.singles@.no_duplicates(),
        split.rest@.no_duplicates(),
        forall|g: int|
            0 <= g < split.blocks@.len() ==> (#[trigger] split.blocks@[g])@.no_duplicates(),
        forall|row: usize| #[trigger] split.singles@.contains(row) ==> rows.contains(row),
        forall|row: usize| #[trigger] split.rest@.contains(row) ==> rows.contains(row),
        forall|g: int, row: usize|
            0 <= g < split.blocks@.len() && #[trigger] split.blocks@[g]@.contains(row)
                ==> rows.contains(row),
        forall|row: usize| #[trigger]
            split.rest@.contains(row) ==> !split.singles@.contains(row) && in_crossing(
                rows,
                labels,
                labels.len(),
                row,
            ),
        forall|g: int, row: usize|
            0 <= g < split.blocks@.len() && #[trigger] split.blocks@[g]@.contains(row)
                ==> !split.singles@.contains(row) && !split.rest@.contains(row),
        forall|g: int, h: int, row: usize|
            0 <= g < split.blocks@.len() && 0 <= h < split.blocks@.len() && g != h
                && #[trigger] split.blocks@[g]@.contains(row)
                ==> !#[trigger] split.blocks@[h]@.contains(row),
{
    let order = labels.len() as int;
    let big = larger(groups);
    singles_are_diagonal(groups, rows, labels);
    larger_classes(groups, labels);
    crossing_rows_are_across(rows, labels, labels.len());
    assert forall|g: int| 0 <= g < split.blocks@.len() implies (
    #[trigger] split.blocks@[g])@.no_duplicates() by {
        class_rows(rows, labels, big, g);
    }
    assert forall|row: usize| #[trigger] split.singles@.contains(row) implies rows.contains(row)
        && on_diagonal(groups, rows, row) by {
        let s = choose|s: int| 0 <= s < split.singles@.len() && split.singles@[s] == row;
        assert(on_diagonal(groups, rows, split.singles@[s]));
        let g = choose|g: int|
            0 <= g < groups.len() && (#[trigger] groups[g]).len() == 1 && inside(
                rows,
                groups[g],
                row,
                0,
                0,
            );
        assert(groups[g][0] < labels.len());
        part_row(rows, order, groups[g][0] as int, groups[g][0] as int);
    }
    assert forall|row: usize| #[trigger] split.rest@.contains(row) implies rows.contains(row)
        && in_crossing(rows, labels, labels.len(), row) by {
        let s = choose|s: int| 0 <= s < split.rest@.len() && split.rest@[s] == row;
        assert(in_crossing(rows, labels, labels.len(), split.rest@[s]));
        let (a, b) = choose|a: int, b: int|
            b < labels.len() && #[trigger] across(rows, labels, row, a, b);
        part_row(rows, order, a, b);
    }
    assert forall|g: int, row: usize|
        0 <= g < split.blocks@.len() && #[trigger] split.blocks@[g]@.contains(
            row,
        ) implies rows.contains(row) && in_block(rows, big[g], big[g].len(), row) by {
        class_rows(rows, labels, big, g);
        let block = split.blocks@[g]@;
        let s = choose|s: int| 0 <= s < block.len() && block[s] == row;
        assert(in_block(rows, big[g], big[g].len(), block[s]));
        let (a, b) = choose|a: int, b: int|
            b < big[g].len() && #[trigger] inside(rows, big[g], row, a, b);
        assert(big[g][a] < labels.len() && big[g][b] < labels.len());
        assert(a < b ==> big[g][a] < big[g][b]);
        part_row(rows, order, big[g][a] as int, big[g][b] as int);
    }
    assert forall|row: usize| #[trigger] split.rest@.contains(
        row,
    ) implies !split.singles@.contains(row) by {
        if split.singles@.contains(row) {
            assert(on_diagonal(groups, rows, row));
            let g = choose|g: int|
                0 <= g < groups.len() && (#[trigger] groups[g]).len() == 1 && inside(
                    rows,
                    groups[g],
                    row,
                    0,
                    0,
                );
            let (a, b) = choose|a: int, b: int|
                b < labels.len() && #[trigger] across(rows, labels, row, a, b);
            assert(groups[g][0] < labels.len());
            same_row(rows, order, groups[g][0] as int, groups[g][0] as int, a, b);
        }
    }
    assert forall|g: int, row: usize|
        0 <= g < split.blocks@.len() && #[trigger] split.blocks@[g]@.contains(
            row,
        ) implies !split.singles@.contains(row) && !split.rest@.contains(row) by {
        let (a, b) = choose|a: int, b: int|
            b < big[g].len() && #[trigger] inside(rows, big[g], row, a, b);
        assert(big[g][a] < labels.len() && big[g][b] < labels.len());
        assert(a < b ==> big[g][a] < big[g][b]);
        if split.singles@.contains(row) {
            assert(on_diagonal(groups, rows, row));
            let f = choose|f: int|
                0 <= f < groups.len() && (#[trigger] groups[f]).len() == 1 && inside(
                    rows,
                    groups[f],
                    row,
                    0,
                    0,
                );
            assert(groups[f][0] < labels.len());
            same_row(
                rows,
                order,
                groups[f][0] as int,
                groups[f][0] as int,
                big[g][a] as int,
                big[g][b] as int,
            );
            assert(groups.contains(big[g]));
            let e = choose|e: int| 0 <= e < groups.len() && groups[e] == big[g];
            assert(labels[groups[e][a] as int] == labels[groups[e][0] as int]);
            assert(e != f);
        }
        if split.rest@.contains(row) {
            let (c, d) = choose|c: int, d: int|
                d < labels.len() && #[trigger] across(rows, labels, row, c, d);
            same_row(rows, order, c, d, big[g][a] as int, big[g][b] as int);
        }
    }
    assert forall|g: int, h: int, row: usize|
        0 <= g < split.blocks@.len() && 0 <= h < split.blocks@.len() && g != h
            && #[trigger] split.blocks@[g]@.contains(row) implies !#[trigger] split.blocks@[h]@.contains(
    row) by {
        if split.blocks@[h]@.contains(row) {
            let (a, b) = choose|a: int, b: int|
                b < big[g].len() && #[trigger] inside(rows, big[g], row, a, b);
            let (c, d) = choose|c: int, d: int|
                d < big[h].len() && #[trigger] inside(rows, big[h], row, c, d);
            assert(big[g][a] < labels.len() && big[g][b] < labels.len());
            assert(a < b ==> big[g][a] < big[g][b]);
            assert(big[h][c] < labels.len() && big[h][d] < labels.len());
            assert(c < d ==> big[h][c] < big[h][d]);
            same_row(
                rows,
                order,
                big[g][a] as int,
                big[g][b] as int,
                big[h][c] as int,
                big[h][d] as int,
            );
            assert(labels[big[g][0] as int] == labels[big[h][0] as int]);
        }
    }
}

proof fn class_rows(rows: Seq<usize>, labels: Seq<usize>, big: Seq<Seq<usize>>, g: int)
    requires
        rows.no_duplicates(),
        rows.len() == cone::triangle(labels.len() as int),
        classes_of(big, labels),
        0 <= g < big.len(),
    ensures
        packed_rows(rows, big[g], big[g].len()).no_duplicates(),
        forall|s: int|
            0 <= s < packed_rows(rows, big[g], big[g].len()).len() ==> in_block(
                rows,
                big[g],
                big[g].len(),
                #[trigger] packed_rows(rows, big[g], big[g].len())[s],
            ),
{
    let group = big[g];
    assert forall|a: int| 0 <= a < group.len() implies (#[trigger] group[a]) < labels.len() by {
        assert(big[g][a] < labels.len());
    }
    assert forall|a: int, b: int| 0 <= a < b < group.len() implies (#[trigger] group[a]) < (
    #[trigger] group[b]) by {
        assert(big[g][a] < big[g][b]);
    }
    packed_rows_are_inside(rows, group, group.len(), labels.len() as int);
}

/// The parts of a split triangle.
pub struct Split {
    pub singles: Vec<usize>,
    pub blocks: Vec<Vec<usize>>,
    pub orders: Vec<usize>,
    pub rest: Vec<usize>,
}

fn pack(rows: &Vec<usize>, group: &Vec<usize>, Ghost(labels): Ghost<Seq<usize>>) -> (block: Vec<
    usize,
>)
    requires
        rows@.len() == cone::triangle(labels.len() as int),
        forall|a: int| 0 <= a < group@.len() ==> (#[trigger] group@[a]) < labels.len(),
        forall|a: int, b: int|
            0 <= a < b < group@.len() ==> (#[trigger] group@[a]) < (#[trigger] group@[b]),
    ensures
        block@ == packed_rows(rows@, group@, group@.len()),
{
    let mut block: Vec<usize> = Vec::new();
    let mut j: usize = 0;
    while j < group.len()
        invariant
            j <= group@.len(),
            rows@.len() == cone::triangle(labels.len() as int),
            forall|a: int| 0 <= a < group@.len() ==> (#[trigger] group@[a]) < labels.len(),
            forall|a: int, b: int|
                0 <= a < b < group@.len() ==> (#[trigger] group@[a]) < (#[trigger] group@[b]),
            block@ == packed_rows(rows@, group@, j as nat),
        decreases group@.len() - j,
    {
        let ghost start = block@;
        let mut i: usize = 0;
        proof {
            assert(start + packed_column(rows@, group@, j as int, 0) =~= start);
        }
        while i <= j
            invariant
                i <= j + 1,
                j < group@.len(),
                rows@.len() == cone::triangle(labels.len() as int),
                forall|a: int| 0 <= a < group@.len() ==> (#[trigger] group@[a]) < labels.len(),
                forall|a: int, b: int|
                    0 <= a < b < group@.len() ==> (#[trigger] group@[a]) < (#[trigger] group@[b]),
                block@ == start + packed_column(rows@, group@, j as int, i as nat),
            decreases j + 1 - i,
        {
            let left: usize = group[i];
            let right: usize = group[j];
            proof {
                cone::coordinates_are_distinct(
                    left as int,
                    right as int,
                    left as int,
                    right as int,
                    labels.len() as int,
                );
            }
            let k: usize = packed_index(left, right, rows.len());
            block.push(rows[k]);
            assert(j < group.len());
            i = i + 1;
            assert(block@ =~= start + packed_column(rows@, group@, j as int, i as nat));
        }
        j = j + 1;
    }
    block
}

fn crossing(rows: &Vec<usize>, labels: &Vec<usize>) -> (rest: Vec<usize>)
    requires
        rows@.len() == cone::triangle(labels@.len() as int),
    ensures
        rest@ == crossing_rows(rows@, labels@, labels@.len()),
{
    let mut rest: Vec<usize> = Vec::new();
    let mut j: usize = 0;
    while j < labels.len()
        invariant
            j <= labels@.len(),
            rows@.len() == cone::triangle(labels@.len() as int),
            rest@ == crossing_rows(rows@, labels@, j as nat),
        decreases labels@.len() - j,
    {
        let ghost start = rest@;
        let mut i: usize = 0;
        assert(start + crossing_column(rows@, labels@, j as int, 0) =~= start);
        while i < j
            invariant
                i <= j < labels@.len(),
                rows@.len() == cone::triangle(labels@.len() as int),
                rest@ == start + crossing_column(rows@, labels@, j as int, i as nat),
            decreases j - i,
        {
            if labels[i] != labels[j] {
                proof {
                    cone::coordinates_are_distinct(
                        i as int,
                        j as int,
                        i as int,
                        j as int,
                        labels@.len() as int,
                    );
                }
                let k: usize = packed_index(i, j, rows.len());
                rest.push(rows[k]);
            }
            i = i + 1;
            assert(rest@ =~= start + crossing_column(rows@, labels@, j as int, i as nat));
        }
        j = j + 1;
    }
    rest
}

/// Split a packed triangle along the classes of a labelling of its indices.
pub fn split_triangle(rows: &Vec<usize>, labels: &Vec<usize>, groups: &Vec<Vec<usize>>) -> (split:
    Split)
    requires
        rows@.len() == cone::triangle(labels@.len() as int),
        classes_of(views(groups@), labels@),
    ensures
        split_parts(split, rows@, labels@, views(groups@)),
{
    let mut singles: Vec<usize> = Vec::new();
    let mut blocks: Vec<Vec<usize>> = Vec::new();
    let mut orders: Vec<usize> = Vec::new();
    let ghost all = views(groups@);
    let mut g: usize = 0;
    while g < groups.len()
        invariant
            g <= groups@.len(),
            all == views(groups@),
            rows@.len() == cone::triangle(labels@.len() as int),
            classes_of(all, labels@),
            singles@ == singles_of(all.take(g as int), rows@),
            blocks@.len() == larger(all.take(g as int)).len(),
            orders@.len() == blocks@.len(),
            forall|h: int|
                0 <= h < blocks@.len() ==> {
                    &&& (#[trigger] blocks@[h])@ == packed_rows(
                        rows@,
                        larger(all.take(g as int))[h],
                        larger(all.take(g as int))[h].len(),
                    )
                    &&& orders@[h] == larger(all.take(g as int))[h].len()
                },
        decreases groups@.len() - g,
    {
        let group = &groups[g];
        assert(all[g as int] == group@);
        assert(all.take(g + 1).drop_last() =~= all.take(g as int));
        assert(all.take(g + 1).last() == group@);
        assert(forall|a: int|
            0 <= a < group@.len() ==> (#[trigger] all[g as int][a]) < labels@.len());
        assert(forall|a: int, b: int|
            0 <= a < b < group@.len() ==> (#[trigger] all[g as int][a]) < (
            #[trigger] all[g as int][b]));
        if group.len() == 1 {
            let j: usize = group[0];
            proof {
                assert(all[g as int][0] < labels@.len());
                cone::coordinates_are_distinct(
                    j as int,
                    j as int,
                    j as int,
                    j as int,
                    labels@.len() as int,
                );
            }
            let k: usize = packed_index(j, j, rows.len());
            singles.push(rows[k]);
        } else {
            let ghost before = blocks@;
            let ghost sizes = orders@;
            let block = pack(rows, group, Ghost(labels@));
            blocks.push(block);
            orders.push(group.len());
            proof {
                assert forall|h: int| 0 <= h < blocks@.len() implies {
                    &&& (#[trigger] blocks@[h])@ == packed_rows(
                        rows@,
                        larger(all.take(g + 1))[h],
                        larger(all.take(g + 1))[h].len(),
                    )
                    &&& orders@[h] == larger(all.take(g + 1))[h].len()
                } by {
                    if h < before.len() {
                        assert(blocks@[h] == before[h]);
                        assert(orders@[h] == sizes[h]);
                    }
                }
            }
        }
        g = g + 1;
    }
    assert(all.take(g as int) =~= all);
    let rest = crossing(rows, labels);
    Split { singles, blocks, orders, rest }
}

} // verus!
