//! The working model of a problem.

use crate::assembly;
use crate::bounds::{Bounds, RowDomain};
use crate::csc;
use crate::csc::CscMatrix;
use crate::hessian;
use crate::linked;
use crate::linked::{Entries, LinkedMatrix, NONE};
use crate::model::Model;
use crate::number::Real;
use crate::objective::Objective;
use crate::packing;
use crate::packing::working_rows;
use crate::problem::{Constraint, Problem};
use crate::symmetric::SymmetricMatrix;
use crate::simplify;
use crate::transaction;
use vstd::prelude::*;

verus! {

/// The part of a column on and above the diagonal.
pub open spec fn upper_part(entries: Seq<(usize, Real)>, j: int) -> Seq<(usize, Real)> {
    entries.filter(|e: (usize, Real)| e.0 <= j)
}

/// The columns of a matrix, or of its upper triangle.
pub open spec fn columns_of(columns: Seq<Entries>, matrix: CscMatrix, upper: bool) -> bool {
    &&& columns.len() == matrix.column_count()
    &&& forall|j: int|
        0 <= j < columns.len() ==> (#[trigger] columns[j])@ == if upper {
            upper_part(matrix.entries(j), j)
        } else {
            matrix.entries(j)
        }
}

/// Entries of the columns together.
pub open spec fn sum_of_lengths(columns: Seq<Entries>) -> nat
    decreases columns.len(),
{
    if columns.len() == 0 {
        0
    } else {
        sum_of_lengths(columns.drop_last()) + columns.last()@.len()
    }
}

proof fn nonzeros_within(columns: Seq<Entries>)
    ensures
        assembly::total_nonzeros(columns) <= sum_of_lengths(columns),
    decreases columns.len(),
{
    if columns.len() > 0 {
        nonzeros_within(columns.drop_last());
        columns.last()@.lemma_filter_len(|entry: (usize, Real)| !entry.1.zero());
    }
}

proof fn counts_agree(columns: Seq<Entries>, n: nat)
    requires
        n <= columns.len(),
    ensures
        hessian::entry_count(columns, n) == sum_of_lengths(columns.take(n as int)),
    decreases n,
{
    if n > 0 {
        counts_agree(columns, (n - 1) as nat);
        assert(columns.take(n as int).drop_last() =~= columns.take(n - 1));
    }
}

/// Every entry of the columns is finite.
pub open spec fn finite_columns(columns: Seq<Entries>) -> bool {
    forall|j: int, a: int|
        0 <= j < columns.len() && 0 <= a < columns[j]@.len() ==> (
        #[trigger] columns[j]@[a]).1.finite()
}

fn upper_of(entries: &Entries, j: usize) -> (part: Entries)
    ensures
        part@ == upper_part(entries@, j as int),
{
    let mut part: Entries = Vec::new();
    let mut k: usize = 0;
    let ghost test = |e: (usize, Real)| e.0 <= j as int;
    assert(entries@.take(0).filter(test) =~= part@) by {
        reveal(Seq::filter);
    }
    while k < entries.len()
        invariant
            k <= entries@.len(),
            test == (|e: (usize, Real)| e.0 <= j as int),
            part@ == entries@.take(k as int).filter(test),
        decreases entries@.len() - k,
    {
        proof {
            assert(entries@.take(k + 1).drop_last() =~= entries@.take(k as int));
            reveal(Seq::filter);
        }
        if entries[k].0 <= j {
            part.push(entries[k]);
        }
        k = k + 1;
    }
    assert(entries@.take(k as int) =~= entries@);
    part
}

fn split_columns(matrix: &CscMatrix, upper: bool) -> (r: (Vec<Entries>, u128))
    requires
        matrix.wf(),
    ensures
        columns_of(r.0@, *matrix, upper),
        r.1 == sum_of_lengths(r.0@),
{
    let mut columns: Vec<Entries> = Vec::new();
    let mut total: u128 = 0;
    let mut j: usize = 0;
    while j < matrix.columns()
        invariant
            j <= matrix.column_count(),
            matrix.wf(),
            columns@.len() == j,
            total == sum_of_lengths(columns@),
            total <= j * (usize::MAX as u128),
            forall|t: int|
                0 <= t < j ==> (#[trigger] columns@[t])@ == if upper {
                    upper_part(matrix.entries(t), t)
                } else {
                    matrix.entries(t)
                },
        decreases matrix.column_count() - j,
    {
        let whole = matrix.column(j);
        let part = if upper {
            upper_of(&whole, j)
        } else {
            whole
        };
        let ghost before = columns@;
        let length: usize = part.len();
        proof {
            assert((j + 1) * (usize::MAX as u128) == j * (usize::MAX as u128) + usize::MAX)
                by (nonlinear_arith);
            assert((j + 1) * (usize::MAX as u128) <= u128::MAX) by (nonlinear_arith)
                requires
                    j + 1 <= usize::MAX,
            ;
        }
        total = total + length as u128;
        columns.push(part);
        assert(columns@.drop_last() =~= before);
        j = j + 1;
    }
    (columns, total)
}

fn all_finite(columns: &Vec<Entries>) -> (b: bool)
    ensures
        b == finite_columns(columns@),
{
    let mut j: usize = 0;
    while j < columns.len()
        invariant
            j <= columns@.len(),
            forall|t: int, a: int|
                0 <= t < j && 0 <= a < columns@[t]@.len() ==> (
                #[trigger] columns@[t]@[a]).1.finite(),
        decreases columns@.len() - j,
    {
        let mut a: usize = 0;
        while a < columns[j].len()
            invariant
                j < columns@.len(),
                a <= columns@[j as int]@.len(),
                forall|t: int| 0 <= t < a ==> (#[trigger] columns@[j as int]@[t]).1.finite(),
            decreases columns@[j as int]@.len() - a,
        {
            if !columns[j][a].1.is_finite() {
                assert(!columns@[j as int]@[a as int].1.finite());
                return false;
            }
            a = a + 1;
        }
        j = j + 1;
    }
    true
}

/// A matrix in working form.
pub open spec fn works_as(a: LinkedMatrix, matrix: CscMatrix) -> bool {
    &&& a.row_count() == matrix.row_count()
    &&& a.column_count() == matrix.column_count()
    &&& forall|j: int|
        0 <= j < matrix.column_count() ==> linked::lists_line(
            assembly::nonzeros(#[trigger] matrix.entries(j)),
            a@,
            true,
            j,
        )
}

fn working_matrix(matrix: &CscMatrix) -> (r: Option<LinkedMatrix>)
    requires
        matrix.wf(),
    ensures
        r matches Some(a) ==> a.wf() && works_as(a, *matrix),
        r is None ==> matrix.row_count() >= NONE || matrix.column_count() >= NONE || exists|
            columns: Seq<Entries>,
        | #[trigger] columns_of(columns, *matrix, false) && sum_of_lengths(columns) >= NONE,
{
    if matrix.rows() >= NONE as usize || matrix.columns() >= NONE as usize {
        return None;
    }
    let (columns, total): (Vec<Entries>, u128) = split_columns(matrix, false);
    if total >= NONE as u128 {
        assert(columns_of(columns@, *matrix, false));
        return None;
    }
    proof {
        nonzeros_within(columns@);
        assert forall|j: int, a: int|
            0 <= j < columns@.len() && 0 <= a < columns@[j]@.len() implies (
        #[trigger] columns@[j]@[a]).0 < matrix.row_count() by {
            csc::column_is_increasing(*matrix, j);
            assert(matrix.entries(j)[a].0 < matrix.row_count());
        }
        assert forall|j: int, a: int, b: int|
            0 <= j < columns@.len() && 0 <= a < b < columns@[j]@.len() implies (
        #[trigger] columns@[j]@[a]).0 < (#[trigger] columns@[j]@[b]).0 by {
            csc::column_is_increasing(*matrix, j);
        }
    }
    let a = LinkedMatrix::from_columns(matrix.rows(), &columns);
    proof {
        assert forall|j: int| 0 <= j < matrix.column_count() implies linked::lists_line(
            assembly::nonzeros(#[trigger] matrix.entries(j)),
            a@,
            true,
            j,
        ) by {
            assert(columns@[j]@ == matrix.entries(j));
        }
    }
    Some(a)
}

/// A matrix of curvature in working form: its upper triangle counts.
pub open spec fn curves_as(p: SymmetricMatrix, matrix: CscMatrix) -> bool {
    exists|columns: Seq<Entries>| #[trigger]
        columns_of(columns, matrix, true) && hessian::mirrors(p@, columns)
}

proof fn filtered_stays_sorted(entries: Seq<(usize, Real)>, j: int)
    requires
        forall|a: int, b: int|
            0 <= a < b < entries.len() ==> (#[trigger] entries[a]).0 < (#[trigger] entries[b]).0,
    ensures
        ({
            let part = upper_part(entries, j);
            &&& forall|a: int| 0 <= a < part.len() ==> (#[trigger] part[a]).0 <= j
            &&& forall|a: int, b: int|
                0 <= a < b < part.len() ==> (#[trigger] part[a]).0 < (#[trigger] part[b]).0
            &&& entries.len() > 0 ==> forall|a: int|
                0 <= a < part.len() ==> (#[trigger] part[a]).0 <= entries.last().0
        }),
    decreases entries.len(),
{
    reveal(Seq::filter);
    if entries.len() > 0 {
        let less = entries.drop_last();
        assert forall|a: int, b: int| 0 <= a < b < less.len() implies (#[trigger] less[a]).0 < (
        #[trigger] less[b]).0 by {
            assert(entries[a].0 < entries[b].0);
        }
        filtered_stays_sorted(less, j);
        let before = upper_part(less, j);
        let part = upper_part(entries, j);
        assert(part =~= if entries.last().0 <= j {
            before.push(entries.last())
        } else {
            before
        });
        assert forall|a: int| 0 <= a < before.len() implies (#[trigger] before[a]).0
            < entries.last().0 by {
            if less.len() > 0 {
                assert(before[a].0 <= less.last().0);
                assert(entries[less.len() - 1].0 < entries[less.len() as int].0);
            } else {
                assert(less =~= Seq::<(usize, Real)>::empty());
            }
        }
        assert forall|a: int| 0 <= a < part.len() implies (#[trigger] part[a]).0 <= j && part[a].0
            <= entries.last().0 by {
            if a < before.len() {
                assert(part[a] == before[a]);
            }
        }
        assert forall|a: int, b: int| 0 <= a < b < part.len() implies (#[trigger] part[a]).0 < (
        #[trigger] part[b]).0 by {
            assert(part[a] == before[a]);
            if b < before.len() {
                assert(part[b] == before[b]);
            }
        }
    }
}

fn working_curvature(matrix: &CscMatrix) -> (r: Option<SymmetricMatrix>)
    requires
        matrix.wf(),
    ensures
        r matches Some(p) ==> p.wf() && p.size() == matrix.column_count() && p.edits() == 0
            && curves_as(p, *matrix),
        r is None ==> matrix.column_count() >= NONE || exists|columns: Seq<Entries>| #[trigger]
            columns_of(columns, *matrix, true) && (sum_of_lengths(columns) >= NONE || 2
                * sum_of_lengths(columns) > usize::MAX || !finite_columns(columns)),
{
    if matrix.columns() >= NONE as usize {
        return None;
    }
    let (columns, total): (Vec<Entries>, u128) = split_columns(matrix, true);
    assert(columns_of(columns@, *matrix, true));
    if total >= NONE as u128 || total > usize::MAX as u128 / 2 || !all_finite(&columns) {
        return None;
    }
    proof {
        counts_agree(columns@, columns@.len());
        assert(columns@.take(columns@.len() as int) =~= columns@);
        assert forall|j: int| 0 <= j < columns@.len() implies {
            let part = (#[trigger] columns@[j])@;
            &&& forall|a: int| 0 <= a < part.len() ==> (#[trigger] part[a]).0 <= j
            &&& forall|a: int, b: int|
                0 <= a < b < part.len() ==> (#[trigger] part[a]).0 < (#[trigger] part[b]).0
        } by {
            csc::column_is_increasing(*matrix, j);
            filtered_stays_sorted(matrix.entries(j), j);
        }
        assert forall|j: int, a: int|
            0 <= j < columns@.len() && 0 <= a < columns@[j]@.len() implies (
        #[trigger] columns@[j]@[a]).0 <= j && columns@[j]@[a].1.finite() by {
            let part = columns@[j]@;
            assert(part[a].0 <= j);
        }
        assert forall|j: int, a: int, b: int|
            0 <= j < columns@.len() && 0 <= a < b < columns@[j]@.len() implies (
        #[trigger] columns@[j]@[a]).0 < (#[trigger] columns@[j]@[b]).0 by {
            let part = columns@[j]@;
            assert(part[a].0 < part[b].0);
        }
    }
    Some(SymmetricMatrix::from_upper_columns(&columns))
}

/// A cone row names a block that there is.
pub open spec fn names_blocks(rows: Seq<Constraint>, cones: nat) -> bool {
    forall|i: int|
        0 <= i < rows.len() ==> ((#[trigger] rows[i]) matches Constraint::Cone { block, .. }
            ==> block < cones)
}

fn blocks_named(rows: &Vec<Constraint>, cones: usize) -> (b: bool)
    ensures
        b == names_blocks(rows@, cones as nat),
{
    let mut i: usize = 0;
    while i < rows.len()
        invariant
            i <= rows@.len(),
            forall|t: int|
                0 <= t < i ==> ((#[trigger] rows@[t]) matches Constraint::Cone { block, .. }
                    ==> block < cones),
        decreases rows@.len() - i,
    {
        if let Constraint::Cone { block, .. } = rows[i] {
            if block >= cones {
                return false;
            }
        }
        i = i + 1;
    }
    true
}

/// The working model and the objective of a problem. Nothing where a matrix does
/// not fit into the working storage, an entry of the curvature is not finite, a
/// cone row names no block, or the curvature has another size.
pub fn working_model(problem: &Problem) -> (r: Option<(Model, Objective)>)
    requires
        problem.wf(),
        problem.p matches Some(p) ==> p.wf(),
        problem.cones@.len() < usize::MAX,
    ensures
        r matches Some((model, objective)) ==> {
            &&& model.wf()
            &&& objective.wf()
            &&& objective.c@ == problem.c@
            &&& objective.constant == problem.c0
            &&& works_as(model.a, problem.a)
            &&& model.rows@ == problem.rows@.map_values(|row: Constraint| packing::domain_of(row))
            &&& model.bounds@ == Seq::new(problem.c@.len(), |j: int| problem.bounds_of(j))
            &&& model.alive@ == Seq::new(problem.c@.len(), |j: int| true)
            &&& model.revision == 0
            &&& model.tape@.len() == 0
            &&& model.cones@ == problem.cones@
            &&& simplify::blocks_wf(model)
            &&& model.cached@ == Seq::new(problem.rows@.len(), |i: int| false)
            &&& model.queues@ == transaction::all_columns_noted(
                transaction::all_rows_noted(
                    transaction::nothing_waits(),
                    model.rows@,
                    model.a@,
                    model.rows@.len(),
                ),
                model.bounds@,
                model.a@,
                model.bounds@.len(),
            )
            &&& forall|b: int|
                0 <= b < problem.cones@.len() ==> (#[trigger] model.cone_rows@[b])@
                    == transaction::block_rows(model.rows@, b, model.rows@.len())
            &&& model.changed_cones@ == ({
                let once = transaction::blocks_noted(Seq::empty(), model.rows@, model.rows@.len());
                if problem.cones@.len() == 0 {
                    once
                } else {
                    transaction::blocks_noted(once, model.rows@, model.rows@.len())
                }
            })
            &&& objective.p.edits() == 0
            &&& match problem.p {
                Some(p) => curves_as(objective.p, p),
                None => objective.p@.dom().len() == 0,
            }
        },
        r is None ==> {
            ||| !names_blocks(problem.rows@, problem.cones@.len())
            ||| problem.rows@.len() >= NONE
            ||| problem.c@.len() >= NONE
            ||| exists|columns: Seq<Entries>| #[trigger]
                columns_of(columns, problem.a, false) && sum_of_lengths(columns) >= NONE
            ||| problem.p is Some && (problem.p->Some_0.column_count() != problem.c@.len()
                || exists|columns: Seq<Entries>| #[trigger]
                columns_of(columns, problem.p->Some_0, true) && (sum_of_lengths(columns) >= NONE
                    || 2 * sum_of_lengths(columns) > usize::MAX || !finite_columns(columns)))
        },
{
    let n: usize = problem.c.len();
    if !blocks_named(&problem.rows, problem.cones.len()) || n >= NONE as usize {
        return None;
    }
    let a = match working_matrix(&problem.a) {
        Some(a) => a,
        None => {
            return None;
        },
    };
    let p = match &problem.p {
        Some(p) => {
            if p.columns() != n {
                return None;
            }
            match working_curvature(p) {
                Some(p) => p,
                None => {
                    return None;
                },
            }
        },
        None => SymmetricMatrix::zeros(n),
    };
    let rows = working_rows(&problem.rows);
    let mut bounds: Vec<Bounds> = Vec::new();
    let mut c: Vec<Real> = Vec::new();
    let mut j: usize = 0;
    while j < n
        invariant
            j <= n,
            n == problem.c@.len(),
            problem.wf(),
            bounds@.len() == j,
            c@.len() == j,
            forall|t: int| 0 <= t < j ==> #[trigger] bounds@[t] == problem.bounds_of(t),
            forall|t: int| 0 <= t < j ==> #[trigger] c@[t] == problem.c@[t],
        decreases n - j,
    {
        bounds.push(problem.variable_bounds(j));
        c.push(problem.c[j]);
        j = j + 1;
    }
    let mut cones: Vec<crate::cone::Cone> = Vec::new();
    let mut k: usize = 0;
    while k < problem.cones.len()
        invariant
            k <= problem.cones@.len(),
            cones@ == problem.cones@.take(k as int),
        decreases problem.cones@.len() - k,
    {
        cones.push(problem.cones[k]);
        k = k + 1;
        assert(cones@ =~= problem.cones@.take(k as int));
    }
    proof {
        assert(cones@ =~= problem.cones@);
        assert(c@ =~= problem.c@);
        assert(bounds@ =~= Seq::new(problem.c@.len(), |j: int| problem.bounds_of(j)));
        assert forall|i: int|
            0 <= i < rows@.len() implies ((#[trigger] rows@[i]) matches RowDomain::Cone {
            block,
            ..
        } ==> block < cones@.len()) by {
            assert(rows@[i] == packing::domain_of(problem.rows@[i]));
        }
        assert forall|i: int| 0 <= i < rows@.len() implies !((#[trigger] rows@[i]) is Deleted) by {
            assert(rows@[i] == packing::domain_of(problem.rows@[i]));
        }
        a.stored_positions();
    }
    let mut model = Model::from_parts(a, rows, bounds);
    model.set_cones(cones);
    Some((model, Objective { p, c, constant: problem.c0 }))
}

} // verus!
