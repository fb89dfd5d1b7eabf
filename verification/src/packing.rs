//! Packing the surviving part of a working model.

use crate::bounds::{Bounds, RowDomain};
use crate::cone::Cone;
use crate::csc::CscMatrix;
use crate::linked::{self, Entries, LinkedMatrix, NONE};
use crate::merge;
use crate::model::{Model, Rule};
use crate::postsolve::{Coordinates, Postsolve};
use crate::number::Real;
use crate::order;
use crate::pack;
use crate::problem::{Constraint, Problem};
use crate::result::Size;
use crate::simplify;
use crate::symmetric::SymmetricMatrix;
use crate::tape;
use vstd::prelude::*;

verus! {

/// The last place among the first `n` that a map sends to an index.
pub open spec fn last_place(map: Seq<usize>, j: int, n: nat) -> usize
    decreases n,
{
    if n == 0 {
        usize::MAX
    } else if map[n - 1] == j {
        (n - 1) as usize
    } else {
        last_place(map, j, (n - 1) as nat)
    }
}

/// Inverse of a compact-to-stable map; unmapped stable indices hold the
/// largest number.
pub fn inverse(map: &Vec<usize>, len: usize) -> (out: Vec<usize>)
    requires
        tape::all_within(map@, len as nat),
    ensures
        out@.len() == len,
        forall|j: int| 0 <= j < len ==> #[trigger] out@[j] == last_place(map@, j, map@.len()),
{
    let mut out: Vec<usize> = Vec::new();
    let mut j: usize = 0;
    while j < len
        invariant
            j <= len,
            out@.len() == j,
            forall|i: int| 0 <= i < j ==> #[trigger] out@[i] == usize::MAX,
        decreases len - j,
    {
        out.push(usize::MAX);
        j = j + 1;
    }
    let mut at: usize = 0;
    while at < map.len()
        invariant
            at <= map@.len(),
            out@.len() == len,
            tape::all_within(map@, len as nat),
            forall|j: int| 0 <= j < len ==> #[trigger] out@[j] == last_place(map@, j, at as nat),
        decreases map@.len() - at,
    {
        assert(map@[at as int] < len);
        let j: usize = map[at];
        out.set(j, at);
        at = at + 1;
    }
    out
}

/// The inverse of a map of distinct indices undoes it, and holds the largest
/// number everywhere else.
pub proof fn inverse_undoes_the_map(map: Seq<usize>, n: nat)
    requires
        map.no_duplicates(),
        n <= map.len(),
        map.len() <= usize::MAX,
    ensures
        forall|k: int| 0 <= k < n ==> last_place(map, #[trigger] map[k] as int, n) == k,
        forall|j: int|
            (forall|k: int| 0 <= k < n ==> #[trigger] map[k] != j) ==> #[trigger] last_place(
                map,
                j,
                n,
            ) == usize::MAX,
    decreases n,
{
    if n > 0 {
        inverse_undoes_the_map(map, (n - 1) as nat);
        assert forall|k: int| 0 <= k < n implies last_place(map, #[trigger] map[k] as int, n)
            == k by {
            if k < n - 1 {
                assert(map[k] != map[n - 1]);
            }
        }
        assert forall|j: int|
            (forall|k: int| 0 <= k < n ==> #[trigger] map[k] != j) implies #[trigger] last_place(
            map,
            j,
            n,
        ) == usize::MAX by {
            assert(map[n - 1] != j);
            assert(last_place(map, j, (n - 1) as nat) == usize::MAX);
        }
    }
}

/// The places among the first `n` where a flag is set.
pub open spec fn set_places(flags: Seq<bool>, n: nat) -> Seq<usize>
    decreases n,
{
    if n == 0 {
        Seq::empty()
    } else if flags[n - 1] {
        set_places(flags, (n - 1) as nat).push((n - 1) as usize)
    } else {
        set_places(flags, (n - 1) as nat)
    }
}

/// The linear rows among the first `n`.
pub open spec fn linear_places(rows: Seq<RowDomain>, n: nat) -> Seq<usize>
    decreases n,
{
    if n == 0 {
        Seq::empty()
    } else if rows[n - 1] is Linear {
        linear_places(rows, (n - 1) as nat).push((n - 1) as usize)
    } else {
        linear_places(rows, (n - 1) as nat)
    }
}

/// The live coordinates of the first `n` blocks, in block order.
pub open spec fn conic_places(model: Model, n: nat) -> Seq<usize>
    decreases n,
{
    if n == 0 {
        Seq::empty()
    } else {
        conic_places(model, (n - 1) as nat) + simplify::live(model, (n - 1) as usize)
    }
}

/// The cones of the first `n` blocks that keep a coordinate.
pub open spec fn live_cones(model: Model, n: nat) -> Seq<Cone>
    decreases n,
{
    if n == 0 {
        Seq::empty()
    } else if simplify::live(model, (n - 1) as usize).len() > 0 {
        live_cones(model, (n - 1) as nat).push(model.cones@[n - 1])
    } else {
        live_cones(model, (n - 1) as nat)
    }
}

/// Surviving columns and rows of the working model, in stable indices, with
/// the cone blocks that keep at least one coordinate.
#[derive(Clone, Debug)]
pub struct Survivors {
    pub columns: Vec<usize>,
    pub linear_rows: Vec<usize>,
    pub conic_rows: Vec<usize>,
    pub cones: Vec<Cone>,
}

pub fn survivors(model: &Model) -> (s: Survivors)
    requires
        model.wf(),
        simplify::blocks_wf(*model),
    ensures
        s.columns@ == set_places(model.alive@, model.alive@.len()),
        s.linear_rows@ == linear_places(model.rows@, model.rows@.len()),
        s.conic_rows@ == conic_places(*model, model.cones@.len()),
        s.cones@ == live_cones(*model, model.cones@.len()),
        tape::all_within(s.columns@, model.bounds@.len()),
        tape::all_within(s.linear_rows@, model.rows@.len()),
        tape::all_within(s.conic_rows@, model.rows@.len()),
{
    let mut columns: Vec<usize> = Vec::new();
    let mut j: usize = 0;
    while j < model.alive.len()
        invariant
            j <= model.alive@.len(),
            columns@ == set_places(model.alive@, j as nat),
        decreases model.alive@.len() - j,
    {
        if model.alive[j] {
            columns.push(j);
        }
        j = j + 1;
    }
    let mut linear_rows: Vec<usize> = Vec::new();
    let mut i: usize = 0;
    while i < model.rows.len()
        invariant
            i <= model.rows@.len(),
            linear_rows@ == linear_places(model.rows@, i as nat),
        decreases model.rows@.len() - i,
    {
        match model.rows[i] {
            RowDomain::Linear(_) => linear_rows.push(i),
            _ => {},
        }
        i = i + 1;
    }
    let mut conic_rows: Vec<usize> = Vec::new();
    let mut cones: Vec<Cone> = Vec::new();
    let mut b: usize = 0;
    while b < model.cones.len()
        invariant
            b <= model.cones@.len(),
            simplify::blocks_wf(*model),
            conic_rows@ == conic_places(*model, b as nat),
            cones@ == live_cones(*model, b as nat),
        decreases model.cones@.len() - b,
    {
        let mut rows = model.live_rows(b);
        if rows.len() > 0 {
            cones.push(model.cones[b]);
        }
        let ghost before = conic_rows@;
        conic_rows.append(&mut rows);
        assert(conic_rows@ =~= before + simplify::live(*model, b));
        b = b + 1;
    }
    proof {
        assert(model.alive.len() == model.alive@.len());
        assert(model.rows.len() == model.rows@.len());
        set_places_are_exact(model.alive@, model.alive@.len());
        linear_places_are_exact(model.rows@, model.rows@.len());
        conic_places_are_exact(*model, model.cones@.len());
    }
    Survivors { columns, linear_rows, conic_rows, cones }
}

/// Stored coefficients in the first `n` rows of one kind.
pub open spec fn row_nonzeros(model: Model, conic: bool, n: nat) -> nat
    decreases n,
{
    if n == 0 {
        0
    } else {
        row_nonzeros(model, conic, (n - 1) as nat) + if (if conic {
            model.rows@[n - 1] is Cone
        } else {
            model.rows@[n - 1] is Linear
        }) {
            linked::line_items(model.a@, false, n - 1).len()
        } else {
            0
        }
    }
}

/// Rows of one kind among the first `n`.
pub open spec fn row_number(rows: Seq<RowDomain>, conic: bool, n: nat) -> nat
    decreases n,
{
    if n == 0 {
        0
    } else {
        row_number(rows, conic, (n - 1) as nat) + if (if conic {
            rows[n - 1] is Cone
        } else {
            rows[n - 1] is Linear
        }) {
            1
        } else {
            0nat
        }
    }
}

/// Positions stored in the first `n` rows.
spec fn positions_before(a: Map<(int, int), Real>, n: int) -> Set<(int, int)> {
    Set::new(|p: (int, int)| a.contains_key(p) && p.0 < n)
}

proof fn row_positions(a: Map<(int, int), Real>, n: int)
    requires
        a.dom().finite(),
    ensures
        positions_before(a, n).finite(),
        positions_before(a, n).len() <= a.dom().len(),
        positions_before(a, n + 1).len() == positions_before(a, n).len() + linked::line_items(
            a,
            false,
            n,
        ).len(),
{
    vstd::set_lib::lemma_len_subset(positions_before(a, n), a.dom());
    vstd::set_lib::lemma_len_subset(positions_before(a, n + 1), a.dom());
    let row = Set::new(|p: (int, int)| a.contains_key(p) && p.0 == n);
    vstd::set_lib::lemma_len_subset(row, a.dom());
    let items = linked::line_items(a, false, n);
    let f = |p: (int, int)| p.1;
    assert(row.map(f) =~= items) by {
        assert forall|j: int| items.contains(j) implies row.map(f).contains(j) by {
            assert(linked::place(false, n, j) == (n, j));
            assert(row.contains((n, j)));
            assert(f((n, j)) == j);
        }
        assert forall|j: int| row.map(f).contains(j) implies items.contains(j) by {
            let p = choose|p: (int, int)| row.contains(p) && f(p) == j;
            assert(p == (n, j));
            assert(linked::place(false, n, j) == (n, j));
        }
    }
    vstd::set_lib::lemma_map_size(row, items, f);
    vstd::set_lib::lemma_set_disjoint_lens(positions_before(a, n), row);
    assert(positions_before(a, n) + row =~= positions_before(a, n + 1));
}

proof fn row_nonzeros_fit(model: Model, n: nat)
    requires
        model.wf(),
        n <= model.rows@.len(),
    ensures
        row_nonzeros(model, false, n) + row_nonzeros(model, true, n) <= positions_before(
            model.a@,
            n as int,
        ).len(),
        positions_before(model.a@, n as int).len() <= NONE,
        row_number(model.rows@, false, n) <= n,
        row_number(model.rows@, true, n) <= n,
    decreases n,
{
    model.a.stored_positions();
    model.a.stored_count_fits();
    row_positions(model.a@, n as int);
    if n > 0 {
        row_nonzeros_fit(model, (n - 1) as nat);
        row_positions(model.a@, n - 1);
    }
}

/// Dimensions of the surviving problem.
pub fn size(model: &Model, p_nonzeros: usize) -> (size: Size)
    requires
        model.wf(),
    ensures
        size.variables == set_places(model.alive@, model.alive@.len()).len(),
        size.linear_rows == row_number(model.rows@, false, model.rows@.len()),
        size.conic_rows == row_number(model.rows@, true, model.rows@.len()),
        size.a_nonzeros == row_nonzeros(*model, false, model.rows@.len()),
        size.g_nonzeros == row_nonzeros(*model, true, model.rows@.len()),
        size.p_nonzeros == p_nonzeros,
{
    let mut variables: usize = 0;
    let mut j: usize = 0;
    while j < model.alive.len()
        invariant
            j <= model.alive@.len(),
            variables == set_places(model.alive@, j as nat).len(),
            variables <= j,
        decreases model.alive@.len() - j,
    {
        if model.alive[j] {
            variables = variables + 1;
        }
        j = j + 1;
    }
    let mut linear_rows: usize = 0;
    let mut conic_rows: usize = 0;
    let mut a_nonzeros: usize = 0;
    let mut g_nonzeros: usize = 0;
    let mut i: usize = 0;
    while i < model.rows.len()
        invariant
            i <= model.rows@.len(),
            model.wf(),
            linear_rows == row_number(model.rows@, false, i as nat),
            conic_rows == row_number(model.rows@, true, i as nat),
            a_nonzeros == row_nonzeros(*model, false, i as nat),
            g_nonzeros == row_nonzeros(*model, true, i as nat),
        decreases model.rows@.len() - i,
    {
        proof {
            row_nonzeros_fit(*model, (i + 1) as nat);
        }
        let length: usize = model.a.row(i).len();
        match model.rows[i] {
            RowDomain::Linear(_) => {
                linear_rows = linear_rows + 1;
                a_nonzeros = a_nonzeros + length;
            },
            RowDomain::Cone { .. } => {
                conic_rows = conic_rows + 1;
                g_nonzeros = g_nonzeros + length;
            },
            RowDomain::Deleted => {},
        }
        i = i + 1;
    }
    Size { variables, linear_rows, conic_rows, a_nonzeros, g_nonzeros, p_nonzeros }
}

/// The matrix of some rows and columns of another one, in their new order.
pub open spec fn submatrix(
    matrix: CscMatrix,
    a: Map<(int, int), Real>,
    rows: Seq<usize>,
    columns: Seq<usize>,
) -> bool {
    &&& matrix.row_count() == rows.len()
    &&& matrix.column_count() == columns.len()
    &&& forall|j: int|
        0 <= j < columns.len() ==> merge::increasing(#[trigger] matrix.entries(j))
    &&& forall|j: int, i: usize|
        0 <= j < columns.len() ==> #[trigger] merge::entry(matrix.entries(j), i) == picked_entry(
            a,
            rows,
            columns[j],
            i,
        )
}

pub open spec fn picked_entry(
    a: Map<(int, int), Real>,
    rows: Seq<usize>,
    column: usize,
    i: usize,
) -> Option<Real> {
    if i < rows.len() && a.contains_key((rows[i as int] as int, column as int)) {
        Some(a[(rows[i as int] as int, column as int)])
    } else {
        None
    }
}

/// One column in new row numbers.
fn compact_column(
    entries: &Entries,
    row_map: &Vec<usize>,
    Ghost(a): Ghost<Map<(int, int), Real>>,
    Ghost(rows): Ghost<Seq<usize>>,
    Ghost(column): Ghost<usize>,
) -> (out: Entries)
    requires
        linked::lists_line(entries@, a, true, column as int),
        tape::within(entries@, row_map@.len()),
        tape::all_within(rows, row_map@.len()),
        rows.no_duplicates(),
        rows.len() < usize::MAX,
        forall|i: int|
            0 <= i < row_map@.len() ==> #[trigger] row_map@[i] == last_place(rows, i, rows.len()),
    ensures
        merge::increasing(out@),
        forall|i: usize| #[trigger]
            merge::entry(out@, i) == picked_entry(a, rows, column, i),
{
    let mut out: Entries = Vec::new();
    let mut k: usize = 0;
    proof {
        inverse_undoes_the_map(rows, rows.len());
    }
    while k < entries.len()
        invariant
            k <= entries@.len(),
            tape::within(entries@, row_map@.len()),
            forall|x: int, y: int|
                0 <= x < y < entries@.len() ==> (#[trigger] entries@[x]).0 < (
                #[trigger] entries@[y]).0,
            tape::all_within(rows, row_map@.len()),
            rows.no_duplicates(),
            rows.len() < usize::MAX,
            forall|i: int|
                0 <= i < row_map@.len() ==> #[trigger] row_map@[i] == last_place(
                    rows,
                    i,
                    rows.len(),
                ),
            forall|k: int|
                0 <= k < rows.len() ==> last_place(
                    rows,
                    #[trigger] rows[k] as int,
                    rows.len(),
                ) == k,
            forall|j: int|
                (forall|k: int| 0 <= k < rows.len() ==> #[trigger] rows[k] != j)
                    ==> #[trigger] last_place(rows, j, rows.len()) == usize::MAX,
            forall|x: int, y: int|
                0 <= x < out@.len() && 0 <= y < out@.len() && x != y ==> (#[trigger] out@[x]).0
                    != (#[trigger] out@[y]).0,
            forall|i: usize, w: Real| #[trigger]
                out@.contains((i, w)) <==> i < rows.len() && exists|e: int|
                    0 <= e < k && (#[trigger] entries@[e]) == (rows[i as int], w),
        decreases entries@.len() - k,
    {
        let (row, v): (usize, Real) = entries[k];
        assert(entries@[k as int].0 < row_map@.len());
        let i: usize = row_map[row];
        let ghost before = out@;
        if i != usize::MAX {
            out.push((i, v));
        }
        proof {
            if i != usize::MAX {
                let at = choose|at: int| 0 <= at < rows.len() && #[trigger] rows[at] == row;
                assert(i == at);
                assert forall|x: int| 0 <= x < before.len() implies (#[trigger] before[x]).0
                    != i by {
                    assert(before.contains((before[x].0, before[x].1)));
                    let e = choose|e: int|
                        0 <= e < k && (#[trigger] entries@[e]) == (
                            rows[before[x].0 as int],
                            before[x].1,
                        );
                    assert(entries@[e].0 < entries@[k as int].0);
                }
            }
            assert forall|c: usize, w: Real| #[trigger] out@.contains((c, w)) <==> c < rows.len()
                && exists|e: int|
                0 <= e < k + 1 && (#[trigger] entries@[e]) == (rows[c as int], w) by {
                if out@.contains((c, w)) {
                    let x = choose|x: int| 0 <= x < out@.len() && out@[x] == (c, w);
                    if x < before.len() {
                        assert(before[x] == (c, w));
                        assert(before.contains((c, w)));
                        let e = choose|e: int|
                            0 <= e < k && (#[trigger] entries@[e]) == (rows[c as int], w);
                        assert(entries@[e] == (rows[c as int], w));
                    } else {
                        assert(entries@[k as int] == (rows[c as int], w));
                    }
                }
                if c < rows.len() && exists|e: int|
                    0 <= e < k + 1 && (#[trigger] entries@[e]) == (rows[c as int], w) {
                    let e = choose|e: int|
                        0 <= e < k + 1 && (#[trigger] entries@[e]) == (rows[c as int], w);
                    if e < k {
                        assert(before.contains((c, w)));
                        let x = choose|x: int| 0 <= x < before.len() && before[x] == (c, w);
                        assert(out@[x] == (c, w));
                    } else {
                        assert(rows[c as int] == row);
                        assert(i == c);
                        assert(out@[before.len() as int] == (c, w));
                    }
                }
            }
        }
        k = k + 1;
    }
    let ghost list = out@;
    order::sort_by_row(&mut out);
    proof {
        let want = |i: usize| picked_entry(a, rows, column, i);
        assert forall|i: usize, w: Real| #[trigger] list.contains((i, w)) <==> want(i) == Some(
            w,
        ) by {
            if list.contains((i, w)) {
                let e = choose|e: int|
                    0 <= e < entries@.len() && (#[trigger] entries@[e]) == (rows[i as int], w);
                assert(a.contains_key(
                    linked::place(true, column as int, entries@[e].0 as int),
                ));
                assert(linked::place(true, column as int, entries@[e].0 as int) == (
                    rows[i as int] as int,
                    column as int,
                ));
            }
            if want(i) == Some(w) {
                assert(a.contains_key(
                    linked::place(true, column as int, rows[i as int] as int),
                ));
                let e = choose|e: int|
                    0 <= e < entries@.len() && (#[trigger] entries@[e]).0 == rows[i as int];
                assert(entries@[e] == (rows[i as int], w));
            }
        }
        order::sorted_lookup(out@, list, want);
        assert forall|i: usize| #[trigger] merge::entry(out@, i) == picked_entry(
            a,
            rows,
            column,
            i,
        ) by {
            assert(want(i) == merge::entry(out@, i));
        }
    }
    out
}

/// Pack the surviving part of a matrix.
pub fn compact_matrix(a: &LinkedMatrix, rows: &Vec<usize>, columns: &Vec<usize>) -> (matrix:
    CscMatrix)
    requires
        a.wf(),
        tape::all_within(rows@, a.row_count()),
        tape::all_within(columns@, a.column_count()),
        rows@.no_duplicates(),
    ensures
        submatrix(matrix, a@, rows@, columns@),
{
    proof {
        a.stored_positions();
        a.counts_fit();
        lengths_fit(rows@, a.row_count());
    }
    let row_map = inverse(rows, a.rows_total());
    let mut lists: Vec<Entries> = Vec::new();
    let mut j: usize = 0;
    while j < columns.len()
        invariant
            j <= columns@.len(),
            a.wf(),
            tape::all_within(rows@, a.row_count()),
            tape::all_within(columns@, a.column_count()),
            rows@.no_duplicates(),
            rows@.len() < usize::MAX,
            row_map@.len() == a.row_count(),
            forall|i: int|
                0 <= i < row_map@.len() ==> #[trigger] row_map@[i] == last_place(
                    rows@,
                    i,
                    rows@.len(),
                ),
            lists@.len() == j,
            forall|k: int| 0 <= k < j ==> merge::increasing((#[trigger] lists@[k])@),
            forall|k: int, i: usize|
                0 <= k < j ==> #[trigger] merge::entry(lists@[k]@, i) == picked_entry(
                    a@,
                    rows@,
                    columns@[k],
                    i,
                ),
        decreases columns@.len() - j,
    {
        assert(columns@[j as int] < a.column_count());
        let column: usize = columns[j];
        let entries = a.column(column).to_vec();
        proof {
            a.stored_positions();
            assert forall|k: int| 0 <= k < entries@.len() implies (#[trigger] entries@[k]).0
                < row_map@.len() by {
                assert(a@.contains_key(
                    linked::place(true, column as int, entries@[k].0 as int),
                ));
                assert(a@.contains_key((entries@[k].0 as int, column as int)));
            }
        }
        let list = compact_column(
            &entries,
            &row_map,
            Ghost(a@),
            Ghost(rows@),
            Ghost(column),
        );
        lists.push(list);
        j = j + 1;
    }
    let matrix = pack::pack_columns(rows.len(), &lists);
    proof {
        assert forall|j: int| 0 <= j < columns@.len() implies merge::increasing(
            #[trigger] matrix.entries(j),
        ) by {
            assert(matrix.entries(j) == lists@[j]@);
        }
        assert forall|j: int, i: usize| 0 <= j < columns@.len() implies #[trigger] merge::entry(
            matrix.entries(j),
            i,
        ) == picked_entry(a@, rows@, columns@[j], i) by {
            assert(matrix.entries(j) == lists@[j]@);
            assert(merge::entry(lists@[j]@, i) == merge::entry(matrix.entries(j), i));
        }
    }
    matrix
}

/// Distinct indices below a bound are fewer than the bound allows.
proof fn lengths_fit(list: Seq<usize>, n: nat)
    requires
        list.no_duplicates(),
        tape::all_within(list, n),
    ensures
        list.len() <= n,
{
    let ints = list.map_values(|i: usize| i as int);
    assert(ints.no_duplicates());
    ints.unique_seq_to_set();
    vstd::set_lib::lemma_int_range(0, n as int);
    assert(ints.to_set().subset_of(vstd::set_lib::set_int_range(0, n as int))) by {
        assert forall|i: int| ints.to_set().contains(i) implies 0 <= i < n by {
            let k = choose|k: int| 0 <= k < ints.len() && ints[k] == i;
            assert(list[k] < n);
        }
    }
    vstd::set_lib::lemma_len_subset(ints.to_set(), vstd::set_lib::set_int_range(0, n as int));
}

/// The upper triangle of a symmetric matrix restricted to some variables.
pub open spec fn upper_triangle(
    matrix: CscMatrix,
    p: Map<(int, int), Real>,
    columns: Seq<usize>,
) -> bool {
    &&& matrix.row_count() == columns.len()
    &&& matrix.column_count() == columns.len()
    &&& forall|j: int|
        0 <= j < columns.len() ==> merge::increasing(#[trigger] matrix.entries(j))
    &&& forall|j: int, i: usize|
        0 <= j < columns.len() ==> #[trigger] merge::entry(matrix.entries(j), i) == (if i <= j {
            picked_entry(p, columns, columns[j], i)
        } else {
            None
        })
}

/// Pack the upper triangle of the surviving part of a Hessian.
pub fn pack_upper(p: &SymmetricMatrix, columns: &Vec<usize>) -> (matrix: CscMatrix)
    requires
        p.wf(),
        tape::all_within(columns@, p.size()),
        columns@.no_duplicates(),
    ensures
        upper_triangle(matrix, p@, columns@),
{
    proof {
        p.stored_positions();
        lengths_fit(columns@, p.size());
    }
    let row_map = inverse(columns, p.variables());
    let mut lists: Vec<Entries> = Vec::new();
    let mut j: usize = 0;
    while j < columns.len()
        invariant
            j <= columns@.len(),
            p.wf(),
            tape::all_within(columns@, p.size()),
            columns@.no_duplicates(),
            columns@.len() < usize::MAX,
            row_map@.len() == p.size(),
            forall|i: int|
                0 <= i < row_map@.len() ==> #[trigger] row_map@[i] == last_place(
                    columns@,
                    i,
                    columns@.len(),
                ),
            lists@.len() == j,
            forall|k: int| 0 <= k < j ==> merge::increasing((#[trigger] lists@[k])@),
            forall|k: int, i: usize|
                0 <= k < j ==> #[trigger] merge::entry(lists@[k]@, i) == (if i <= k {
                    picked_entry(p@, columns@, columns@[k], i)
                } else {
                    None
                }),
        decreases columns@.len() - j,
    {
        assert(columns@[j as int] < p.size());
        let column: usize = columns[j];
        let entries = p.column(column).to_vec();
        proof {
            p.stored_positions();
            assert forall|k: int| 0 <= k < entries@.len() implies (#[trigger] entries@[k]).0
                < row_map@.len() by {
                assert(p@.contains_key(
                    linked::place(false, column as int, entries@[k].0 as int),
                ));
                assert(p@.contains_key((column as int, entries@[k].0 as int)));
            }
            mirrored_listing(entries@, *p, column as int);
        }
        let list = compact_column(
            &entries,
            &row_map,
            Ghost(p@),
            Ghost(columns@),
            Ghost(column),
        );
        let list = take_through(&list, j);
        lists.push(list);
        j = j + 1;
    }
    let matrix = pack::pack_columns(columns.len(), &lists);
    proof {
        assert forall|j: int| 0 <= j < columns@.len() implies merge::increasing(
            #[trigger] matrix.entries(j),
        ) by {
            assert(matrix.entries(j) == lists@[j]@);
        }
        assert forall|j: int, i: usize| 0 <= j < columns@.len() implies #[trigger] merge::entry(
            matrix.entries(j),
            i,
        ) == (if i <= j {
            picked_entry(p@, columns@, columns@[j], i)
        } else {
            None
        }) by {
            assert(matrix.entries(j) == lists@[j]@);
            assert(merge::entry(lists@[j]@, i) == merge::entry(matrix.entries(j), i));
        }
    }
    matrix
}

/// A row of a symmetric matrix lists its column.
proof fn mirrored_listing(entries: Seq<(usize, Real)>, p: SymmetricMatrix, i: int)
    requires
        p.wf(),
        linked::lists_line(entries, p@, false, i),
    ensures
        linked::lists_line(entries, p@, true, i),
{
    p.stored_positions();
    assert forall|a: int| 0 <= a < entries.len() implies {
        &&& p@.contains_key(linked::place(true, i, (#[trigger] entries[a]).0 as int))
        &&& p@[linked::place(true, i, entries[a].0 as int)] == entries[a].1
    } by {
        let k = entries[a].0 as int;
        assert(p@.contains_key(linked::place(false, i, k)));
        assert(p@.contains_key((i, k)));
        assert(linked::place(true, i, k) == (k, i));
    }
    assert forall|k: int| #[trigger] p@.contains_key(linked::place(true, i, k)) implies exists|
        a: int,
    |
        0 <= a < entries.len() && (#[trigger] entries[a]).0 == k by {
        assert(p@.contains_key((k, i)));
        assert(p@.contains_key(linked::place(false, i, k)));
    }
}

/// The entries up to an index.
fn take_through(entries: &Entries, last: usize) -> (out: Entries)
    requires
        merge::increasing(entries@),
    ensures
        merge::increasing(out@),
        forall|i: usize| #[trigger]
            merge::entry(out@, i) == (if i <= last {
                merge::entry(entries@, i)
            } else {
                None
            }),
{
    let mut out: Entries = Vec::new();
    let mut k: usize = 0;
    while k < entries.len() && entries[k].0 <= last
        invariant
            k <= entries@.len(),
            out@ == entries@.take(k as int),
            forall|x: int| 0 <= x < k ==> (#[trigger] entries@[x]).0 <= last,
        decreases entries@.len() - k,
    {
        out.push(entries[k]);
        k = k + 1;
        assert(out@ =~= entries@.take(k as int));
    }
    proof {
        assert forall|x: int, y: int| 0 <= x < y < out@.len() implies (#[trigger] out@[x]).0 < (
        #[trigger] out@[y]).0 by {
            assert(entries@[x].0 < entries@[y].0);
        }
        assert forall|i: usize| #[trigger] merge::entry(out@, i) == (if i <= last {
            merge::entry(entries@, i)
        } else {
            None
        }) by {
            if exists|a: int| 0 <= a < out@.len() && (#[trigger] out@[a]).0 == i {
                let a = choose|a: int| 0 <= a < out@.len() && (#[trigger] out@[a]).0 == i;
                merge::entry_is(out@, a);
                merge::entry_is(entries@, a);
                assert(entries@[a] == out@[a]);
            } else if i <= last && exists|a: int|
                0 <= a < entries@.len() && (#[trigger] entries@[a]).0 == i {
                let a = choose|a: int| 0 <= a < entries@.len() && (#[trigger] entries@[a]).0 == i;
                if a >= k {
                    if a > k {
                        assert(entries@[k as int].0 < entries@[a].0);
                    }
                }
                assert(out@[a] == entries@[a]);
            }
        }
    }
    out
}

/// The block number of the last of the first `n` conic rows: it grows whenever
/// the stable block changes.
pub open spec fn block_number(rows: Seq<RowDomain>, conic: Seq<usize>, n: nat) -> nat
    decreases n,
{
    if n <= 1 {
        0
    } else if block_of(rows[conic[n - 1] as int]) != block_of(rows[conic[n - 2] as int]) {
        block_number(rows, conic, (n - 1) as nat) + 1
    } else {
        block_number(rows, conic, (n - 1) as nat)
    }
}

pub open spec fn block_of(domain: RowDomain) -> usize {
    match domain {
        RowDomain::Cone { block, .. } => block,
        _ => 0,
    }
}

/// The constraint of a surviving row.
pub open spec fn compact_row(
    rows: Seq<RowDomain>,
    linear: Seq<usize>,
    conic: Seq<usize>,
    k: int,
) -> Constraint {
    if k < linear.len() {
        match rows[linear[k] as int] {
            RowDomain::Linear(b) => Constraint::Linear(b),
            _ => Constraint::Linear(Bounds::free()),
        }
    } else {
        let at = k - linear.len();
        match rows[conic[at] as int] {
            RowDomain::Cone { rhs, .. } => Constraint::Cone {
                rhs,
                block: block_number(rows, conic, (at + 1) as nat) as usize,
            },
            _ => Constraint::Linear(Bounds::free()),
        }
    }
}

pub open spec fn compact_rows(rows: Seq<RowDomain>, linear: Seq<usize>, conic: Seq<usize>) -> Seq<
    Constraint,
> {
    Seq::new(linear.len() + conic.len(), |k: int| compact_row(rows, linear, conic, k))
}

proof fn block_number_fits(rows: Seq<RowDomain>, conic: Seq<usize>, n: nat)
    ensures
        block_number(rows, conic, n) <= n,
    decreases n,
{
    if n > 1 {
        block_number_fits(rows, conic, (n - 1) as nat);
    }
}

/// The constraints of the surviving rows, linear ones first, with consecutive
/// block numbers.
fn compact_domains(rows: &Vec<RowDomain>, linear: &Vec<usize>, conic: &Vec<usize>) -> (out: Vec<
    Constraint,
>)
    requires
        tape::all_within(linear@, rows@.len()),
        tape::all_within(conic@, rows@.len()),
        forall|k: int|
            0 <= k < linear@.len() ==> rows@[(#[trigger] linear@[k]) as int] is Linear,
        forall|k: int| 0 <= k < conic@.len() ==> rows@[(#[trigger] conic@[k]) as int] is Cone,
    ensures
        out@ == compact_rows(rows@, linear@, conic@),
{
    let mut out: Vec<Constraint> = Vec::new();
    let ghost all = compact_rows(rows@, linear@, conic@);
    let mut k: usize = 0;
    while k < linear.len()
        invariant
            k <= linear@.len(),
            tape::all_within(linear@, rows@.len()),
            forall|k: int|
                0 <= k < linear@.len() ==> rows@[(#[trigger] linear@[k]) as int] is Linear,
            all == compact_rows(rows@, linear@, conic@),
            out@ == all.take(k as int),
        decreases linear@.len() - k,
    {
        assert(linear@[k as int] < rows@.len());
        let constraint = match rows[linear[k]] {
            RowDomain::Linear(b) => Constraint::Linear(b),
            _ => Constraint::Linear(Bounds::free()),
        };
        out.push(constraint);
        k = k + 1;
        assert(out@ =~= all.take(k as int));
    }
    let mut block_index: usize = 0;
    let mut last: Option<usize> = None;
    let mut at: usize = 0;
    while at < conic.len()
        invariant
            at <= conic@.len(),
            tape::all_within(conic@, rows@.len()),
            forall|k: int| 0 <= k < conic@.len() ==> rows@[(#[trigger] conic@[k]) as int] is Cone,
            all == compact_rows(rows@, linear@, conic@),
            out@ == all.take(linear@.len() + at),
            block_index == block_number(rows@, conic@, at as nat),
            block_index <= at,
            last == (if at == 0 {
                None
            } else {
                Some(block_of(rows@[conic@[at - 1] as int]))
            }),
        decreases conic@.len() - at,
    {
        assert(conic@[at as int] < rows@.len());
        assert(rows@[conic@[at as int] as int] is Cone);
        proof {
            block_number_fits(rows@, conic@, (at + 1) as nat);
        }
        match rows[conic[at]] {
            RowDomain::Cone { rhs, block } => {
                let moved = match last {
                    Some(b) => b != block,
                    None => false,
                };
                if moved {
                    block_index = block_index + 1;
                }
                last = Some(block);
                out.push(Constraint::Cone { rhs, block: block_index });
            },
            _ => {
                out.push(Constraint::Linear(Bounds::free()));
            },
        }
        at = at + 1;
        assert(out@ =~= all.take(linear@.len() + at));
    }
    assert(all.take(linear@.len() + at) =~= all);
    out
}

/// The places are increasing, in range, and exactly those with a set flag.
pub proof fn set_places_are_exact(flags: Seq<bool>, n: nat)
    requires
        n <= flags.len(),
        flags.len() <= usize::MAX,
    ensures
        tape::all_within(set_places(flags, n), n),
        set_places(flags, n).no_duplicates(),
        forall|j: int|
            0 <= j < n ==> (#[trigger] flags[j] <==> set_places(flags, n).contains(j as usize)),
    decreases n,
{
    if n > 0 {
        set_places_are_exact(flags, (n - 1) as nat);
        let before = set_places(flags, (n - 1) as nat);
        let after = set_places(flags, n);
        assert forall|k: int| 0 <= k < before.len() implies (#[trigger] before[k]) < n - 1 by {}
        assert forall|j: int| 0 <= j < n implies (#[trigger] flags[j] <==> after.contains(
            j as usize,
        )) by {
            if before.contains(j as usize) {
                let k = choose|k: int| 0 <= k < before.len() && before[k] == j as usize;
                assert(after[k] == j as usize);
            }
            if flags[n - 1] {
                assert(after[before.len() as int] == n - 1);
            }
            if after.contains(j as usize) {
                let k = choose|k: int| 0 <= k < after.len() && after[k] == j as usize;
                if k < before.len() {
                    assert(before[k] == j as usize);
                }
            }
        }
    }
}

proof fn linear_places_are_exact(rows: Seq<RowDomain>, n: nat)
    requires
        n <= rows.len(),
        rows.len() <= usize::MAX,
    ensures
        tape::all_within(linear_places(rows, n), n),
        linear_places(rows, n).no_duplicates(),
        forall|k: int|
            0 <= k < linear_places(rows, n).len() ==> rows[(#[trigger] linear_places(
                rows,
                n,
            )[k]) as int] is Linear,
    decreases n,
{
    if n > 0 {
        linear_places_are_exact(rows, (n - 1) as nat);
        let before = linear_places(rows, (n - 1) as nat);
        assert forall|k: int| 0 <= k < before.len() implies (#[trigger] before[k]) < n - 1 by {}
    }
}

/// Live coordinates belong to their own block, so blocks share none.
proof fn conic_places_are_exact(model: Model, n: nat)
    requires
        simplify::blocks_wf(model),
        n <= model.cones@.len(),
    ensures
        tape::all_within(conic_places(model, n), model.rows@.len()),
        conic_places(model, n).no_duplicates(),
        forall|k: int|
            0 <= k < conic_places(model, n).len() ==> (model.rows@[(#[trigger] conic_places(
                model,
                n,
            )[k]) as int] matches RowDomain::Cone { block, .. } && block < n),
    decreases n,
{
    if n > 0 {
        let less = (n - 1) as nat;
        conic_places_are_exact(model, less);
        assert(model.cones.len() == model.cones@.len());
        let b = less as usize;
        let listed = model.cone_rows@[b as int]@;
        assert forall|k: int| 0 <= k < listed.len() implies (#[trigger] listed[k])
            < model.rows@.len() by {
            assert(model.cone_rows@[b as int]@[k] < model.rows@.len());
        }
        simplify::live_rows_are_listed(model.rows@, listed, b);
        let before = conic_places(model, less);
        let last = simplify::live(model, b);
        let after = conic_places(model, n);
        assert forall|k: int| 0 <= k < after.len() implies (#[trigger] after[k])
            < model.rows@.len() && (model.rows@[after[k] as int] matches RowDomain::Cone {
            block,
            ..
        } && block < n) by {
            if k < before.len() {
                assert(after[k] == before[k]);
            } else {
                assert(after[k] == last[k - before.len()]);
                assert(simplify::member(model.rows@, last[k - before.len()] as int, b));
            }
        }
        assert forall|k: int, l: int| 0 <= k < l < after.len() implies after[k] != after[l] by {
            if l < before.len() {
                assert(after[k] == before[k] && after[l] == before[l]);
            } else {
                assert(after[l] == last[l - before.len()]);
                assert(simplify::member(model.rows@, last[l - before.len()] as int, b));
                if k < before.len() {
                    assert(after[k] == before[k]);
                } else {
                    assert(after[k] == last[k - before.len()]);
                }
            }
        }
    }
}

fn join(left: &Vec<usize>, right: &Vec<usize>) -> (out: Vec<usize>)
    ensures
        out@ == left@ + right@,
{
    let mut out: Vec<usize> = Vec::new();
    let mut k: usize = 0;
    while k < left.len()
        invariant
            k <= left@.len(),
            out@ == left@.take(k as int),
        decreases left@.len() - k,
    {
        out.push(left[k]);
        k = k + 1;
        assert(out@ =~= left@.take(k as int));
    }
    let mut l: usize = 0;
    assert(out@ =~= left@ + right@.take(0));
    while l < right.len()
        invariant
            l <= right@.len(),
            out@ == left@ + right@.take(l as int),
        decreases right@.len() - l,
    {
        out.push(right[l]);
        l = l + 1;
        assert(out@ =~= left@ + right@.take(l as int));
    }
    assert(right@.take(l as int) =~= right@);
    out
}

/// The columns are the first ones, all of them in order.
pub open spec fn is_prefix(columns: Seq<usize>, n: nat) -> bool {
    columns.len() == n && forall|k: int| 0 <= k < n ==> #[trigger] columns[k] == k
}

fn prefix_columns(columns: &Vec<usize>, n: usize) -> (b: bool)
    ensures
        b == is_prefix(columns@, n as nat),
{
    if columns.len() != n {
        return false;
    }
    let mut k: usize = 0;
    while k < n
        invariant
            k <= n,
            columns@.len() == n,
            forall|i: int| 0 <= i < k ==> #[trigger] columns@[i] == i,
        decreases n - k,
    {
        if columns[k] != k {
            return false;
        }
        k = k + 1;
    }
    true
}

/// The reduced problem of a working model.
pub open spec fn is_compact(
    problem: Problem,
    model: Model,
    s: Survivors,
    hessian: SymmetricMatrix,
    c: Seq<Real>,
    constant: Real,
    original: Option<CscMatrix>,
    variables: usize,
) -> bool {
    &&& problem.c@ == Seq::new(s.columns@.len(), |j: int| c[s.columns@[j] as int])
    &&& problem.c0 == constant
    &&& problem.variable_bounds@ == Seq::new(
        s.columns@.len(),
        |j: int| model.bounds@[s.columns@[j] as int],
    )
    &&& problem.rows@ == compact_rows(model.rows@, s.linear_rows@, s.conic_rows@)
    &&& problem.cones@ == s.cones@
    &&& submatrix(problem.a, model.a@, s.linear_rows@ + s.conic_rows@, s.columns@)
    &&& if hessian.edits() == 0 && is_prefix(s.columns@, variables as nat) {
        problem.p == original
    } else if original is Some || hessian@.dom().len() != 0 {
        problem.p matches Some(p) && upper_triangle(p, hessian@, s.columns@)
    } else {
        problem.p is None
    }
}

/// Compact a working model into a problem. The Hessian is handed back
/// untouched if neither it nor the variables changed.
pub fn compact_problem(
    model: &Model,
    hessian: &SymmetricMatrix,
    c: &Vec<Real>,
    constant: Real,
    original: Option<CscMatrix>,
    variables: usize,
    s: Survivors,
) -> (problem: Problem)
    requires
        model.wf(),
        simplify::blocks_wf(*model),
        hessian.wf(),
        hessian.size() == model.alive@.len(),
        c@.len() == model.alive@.len(),
        s.columns@ == set_places(model.alive@, model.alive@.len()),
        s.linear_rows@ == linear_places(model.rows@, model.rows@.len()),
        s.conic_rows@ == conic_places(*model, model.cones@.len()),
    ensures
        is_compact(problem, *model, s, *hessian, c@, constant, original, variables),
{
    proof {
        assert(model.alive.len() == model.alive@.len());
        assert(model.rows.len() == model.rows@.len());
        set_places_are_exact(model.alive@, model.alive@.len());
        linear_places_are_exact(model.rows@, model.rows@.len());
        conic_places_are_exact(*model, model.cones@.len());
        let all = s.linear_rows@ + s.conic_rows@;
        assert forall|k: int, l: int| 0 <= k < all.len() && 0 <= l < all.len() && k
            != l implies all[k] != all[l] by {
            let n = s.linear_rows@.len();
            if k < n && l < n {
                assert(s.linear_rows@[k] != s.linear_rows@[l]);
            } else if k >= n && l >= n {
                assert(s.conic_rows@[k - n] != s.conic_rows@[l - n]);
            } else {
                let (low, high) = if k < n {
                    (k, l)
                } else {
                    (l, k)
                };
                assert(model.rows@[s.linear_rows@[low] as int] is Linear);
                assert(model.rows@[s.conic_rows@[high - n] as int] is Cone);
            }
        }
        assert forall|k: int| 0 <= k < all.len() implies (#[trigger] all[k])
            < model.a.row_count() by {
            let n = s.linear_rows@.len();
            if k < n {
                assert(s.linear_rows@[k] < model.rows@.len());
            } else {
                assert(s.conic_rows@[k - n] < model.rows@.len());
            }
        }
    }
    let rows = join(&s.linear_rows, &s.conic_rows);
    let a = compact_matrix(&model.a, &rows, &s.columns);
    let p = if hessian.revision() == 0 && prefix_columns(&s.columns, variables) {
        original
    } else {
        let stored = match original {
            Some(_) => true,
            None => false,
        };
        if stored || hessian.nnz() != 0 {
            Some(pack_upper(hessian, &s.columns))
        } else {
            None
        }
    };
    let mut costs: Vec<Real> = Vec::new();
    let mut bounds: Vec<Bounds> = Vec::new();
    let mut j: usize = 0;
    while j < s.columns.len()
        invariant
            j <= s.columns@.len(),
            tape::all_within(s.columns@, c@.len()),
            c@.len() == model.bounds@.len(),
            costs@.len() == j,
            bounds@.len() == j,
            forall|k: int| 0 <= k < j ==> #[trigger] costs@[k] == c@[s.columns@[k] as int],
            forall|k: int|
                0 <= k < j ==> #[trigger] bounds@[k] == model.bounds@[s.columns@[k] as int],
        decreases s.columns@.len() - j,
    {
        assert(s.columns@[j as int] < c@.len());
        let old: usize = s.columns[j];
        costs.push(c[old]);
        bounds.push(model.bounds[old]);
        j = j + 1;
    }
    let domains = compact_domains(&model.rows, &s.linear_rows, &s.conic_rows);
    assert(costs@ =~= Seq::new(s.columns@.len(), |j: int| c@[s.columns@[j] as int]));
    assert(bounds@ =~= Seq::new(
        s.columns@.len(),
        |j: int| model.bounds@[s.columns@[j] as int],
    ));
    Problem {
        p,
        c: costs,
        c0: constant,
        a,
        rows: domains,
        variable_bounds: bounds,
        cones: s.cones,
    }
}

/// The row domains that a problem starts with.
pub open spec fn domain_of(row: Constraint) -> RowDomain {
    match row {
        Constraint::Linear(b) => RowDomain::Linear(b),
        Constraint::Cone { rhs, block } => RowDomain::Cone { rhs, block },
    }
}

pub fn working_rows(rows: &Vec<Constraint>) -> (domains: Vec<RowDomain>)
    ensures
        domains@ == rows@.map_values(|row: Constraint| domain_of(row)),
{
    let mut domains: Vec<RowDomain> = Vec::new();
    let mut i: usize = 0;
    while i < rows.len()
        invariant
            i <= rows@.len(),
            domains@.len() == i,
            forall|k: int| 0 <= k < i ==> #[trigger] domains@[k] == domain_of(rows@[k]),
        decreases rows@.len() - i,
    {
        let domain = match rows[i] {
            Constraint::Linear(b) => RowDomain::Linear(b),
            Constraint::Cone { rhs, block } => RowDomain::Cone { rhs, block },
        };
        domains.push(domain);
        i = i + 1;
    }
    assert(domains@ =~= rows@.map_values(|row: Constraint| domain_of(row)));
    domains
}

/// The recovery map takes the survivor indices and the recorded rules. Every
/// surviving cone coordinate keeps its input position for slack copies.
pub fn build_postsolve(
    rules: Vec<Rule>,
    total_columns: usize,
    total_rows: usize,
    original_columns: usize,
    input_linear: Vec<usize>,
    input_conic: Vec<usize>,
    s: Survivors,
) -> (built: (Postsolve, Vec<Cone>))
    requires
        tape::all_within(input_conic@, total_rows as nat),
        tape::all_within(s.conic_rows@, total_rows as nat),
        input_conic@.len() == 0 ==> s.conic_rows@.len() == 0,
    ensures
        built.1@ == s.cones@,
        built.0.rules@ == rules@,
        built.0.coordinates.columns@ == s.columns@,
        built.0.coordinates.linear_rows@ == s.linear_rows@,
        built.0.coordinates.conic_rows@ == s.conic_rows@,
        built.0.input_linear@ == input_linear@,
        built.0.input_conic@ == input_conic@,
        built.0.total_columns == total_columns,
        built.0.total_rows == total_rows,
        built.0.original_columns == original_columns,
        built.0.direct_slacks@ == Seq::new(
            s.conic_rows@.len(),
            |at: int|
                (
                    last_place(input_conic@, s.conic_rows@[at] as int, input_conic@.len()),
                    at as usize,
                ),
        ),
        original_columns <= total_columns && tape::all_within(s.columns@, total_columns as nat)
            && tape::all_within(s.linear_rows@, total_rows as nat) && tape::all_within(
            input_linear@,
            total_rows as nat,
        ) && tape::rules_fit(rules@, total_columns as nat, total_rows as nat) ==> built.0.wf(),
{
    let mut direct_slacks: Vec<(usize, usize)> = Vec::new();
    let positions = inverse(&input_conic, total_rows);
    let mut at: usize = 0;
    while at < s.conic_rows.len()
        invariant
            at <= s.conic_rows@.len(),
            tape::all_within(s.conic_rows@, total_rows as nat),
            positions@.len() == total_rows,
            forall|j: int|
                0 <= j < total_rows ==> #[trigger] positions@[j] == last_place(
                    input_conic@,
                    j,
                    input_conic@.len(),
                ),
            direct_slacks@.len() == at,
            forall|k: int|
                0 <= k < at ==> #[trigger] direct_slacks@[k] == (
                    last_place(input_conic@, s.conic_rows@[k] as int, input_conic@.len()),
                    k as usize,
                ),
        decreases s.conic_rows@.len() - at,
    {
        assert(s.conic_rows@[at as int] < total_rows);
        let position: usize = positions[s.conic_rows[at]];
        direct_slacks.push((position, at));
        at = at + 1;
    }
    assert(direct_slacks@ =~= Seq::new(
        s.conic_rows@.len(),
        |at: int|
            (
                last_place(input_conic@, s.conic_rows@[at] as int, input_conic@.len()),
                at as usize,
            ),
    ));
    let coordinates = Coordinates {
        columns: s.columns,
        linear_rows: s.linear_rows,
        conic_rows: s.conic_rows,
    };
    (
        Postsolve {
            rules,
            coordinates,
            input_linear,
            input_conic,
            total_columns,
            total_rows,
            original_columns,
            direct_slacks,
        },
        s.cones,
    )
}

} // verus!
