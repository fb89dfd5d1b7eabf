//! What the lines of an MPS text mean for the problem they describe.

use crate::arithmetic;
use crate::bounds::Bounds;
use crate::exact;
use crate::mps::{self, Draft, FaultView, Row, RowKind, Section};
use crate::names;
use crate::number::{zero, Real};
use crate::reader;
use vstd::prelude::*;

verus! {

/// A line of the BOUNDS section changes the interval of its column and of no
/// other. `FX` leaves one value, `LO` and `UP` cut off what lies beyond, `FR`
/// admits everything, `MI` and `PL` drop one side and keep the other. `UP` with a
/// negative value drops a lower side of zero that no line has set.
pub proof fn bound_lines_say_what_is_admitted<F: Fn(&Vec<char>) -> Option<Real>>(
    draft: Draft,
    after: Draft,
    kind: Seq<char>,
    column: Seq<char>,
    value: Option<Seq<char>>,
    f: F,
    j: int,
    t: real,
)
    requires
        draft.wf(),
        draft.bound(kind, column, value, f) == Ok::<Draft, FaultView>(after),
        0 <= j < draft.column_names.len(),
    ensures
        draft.column_names.contains(column),
        after == (Draft { bounds: after.bounds, lower_set: after.lower_set, ..draft }),
        after.bounds.len() == draft.bounds.len(),
        after.lower_set.len() == draft.lower_set.len(),
        draft.column_names[j] != column ==> after.bounds[j] == draft.bounds[j]
            && after.lower_set[j] == draft.lower_set[j],
        draft.column_names[j] == column ==> {
            let (b, new) = (draft.bounds[j], after.bounds[j]);
            match value {
                Some(token) => {
                    &&& mps::reading(f, token) is Some
                    &&& {
                        let v = mps::reading(f, token)->0;
                        let opens = kind == "UP"@ && v.lt(zero()) && b.lower.same(zero())
                            && !draft.lower_set[j];
                        &&& kind == "FX"@ || kind == "LO"@ || kind == "UP"@
                        &&& kind == "FX"@ ==> new.lower.same(v) && new.upper.same(v)
                            && after.lower_set[j] && (v.finite() ==> (exact::admits(new, t) <==> t
                            == exact::number(v)))
                        &&& kind == "LO"@ ==> new.upper == b.upper && after.lower_set[j] && (
                        exact::admits(new, t) <==> exact::from_below(v, t) && exact::from_above(
                            b.upper,
                            t,
                        ))
                        &&& kind == "UP"@ ==> after.lower_set[j] == draft.lower_set[j] && (
                        exact::admits(new, t) <==> exact::from_above(v, t) && (opens
                            || exact::from_below(b.lower, t)))
                    }
                },
                None => {
                    &&& kind == "FR"@ || kind == "MI"@ || kind == "PL"@
                    &&& kind == "FR"@ ==> exact::admits(new, t) && after.lower_set[j]
                    &&& kind == "MI"@ ==> after.lower_set[j] && (exact::admits(new, t)
                        <==> exact::from_above(b.upper, t))
                    &&& kind == "PL"@ ==> after.lower_set[j] == draft.lower_set[j] && (
                    exact::admits(new, t) <==> exact::from_below(b.lower, t))
                },
            }
        },
{
    reveal_strlit("UP");
    reveal_strlit("LO");
    reveal_strlit("FX");
    reveal_strlit("FR");
    reveal_strlit("MI");
    reveal_strlit("PL");
    assert("UP"@[0] == 'U' && "LO"@[0] == 'L' && "FX"@[0] == 'F' && "FX"@[1] == 'X' && "FR"@[1]
        == 'R' && "MI"@[0] == 'M' && "PL"@[0] == 'P');
    let k = names::find(draft.column_names, column)->0;
    assert(draft.column_names[k] == column);
    names::found_where_it_stands(draft.column_names, j);
    names::found_where_it_stands(draft.column_names, k);
}

/// Every column of a text starts with the values from zero on.
pub proof fn new_columns_are_nonnegative(draft: Draft, name: Seq<char>, t: real)
    requires
        draft.wf(),
        !draft.column_names.contains(name),
    ensures
        ({
            let after = draft.with_column(name);
            let j = draft.column_names.len() as int;
            &&& after.column_names == draft.column_names.push(name)
            &&& exact::admits(after.bounds[j], t) <==> t >= 0 as real
            &&& exact::number(after.c[j]) == 0 as real
            &&& !after.lower_set[j]
            &&& !after.objective_set[j]
            &&& draft.bounds.is_prefix_of(after.bounds)
            &&& draft.c.is_prefix_of(after.c)
        }),
{
    exact::numbers_are_ordered(zero(), zero());
}

/// The set name of a line in the BOUNDS section is free, and so is leaving it out.
pub proof fn bound_sets_do_not_matter<F: Fn(&Vec<char>) -> Option<Real>>(
    draft: Draft,
    kind: Seq<char>,
    set: Seq<char>,
    column: Seq<char>,
    value: Seq<char>,
    f: F,
)
    ensures
        kind == "UP"@ || kind == "LO"@ || kind == "FX"@ ==> draft.free_line(
            Section::Bounds,
            seq![kind, set, column, value],
            f,
        ) == draft.bound(kind, column, Some(value), f) && draft.free_line(
            Section::Bounds,
            seq![kind, column, value],
            f,
        ) == draft.bound(kind, column, Some(value), f),
        kind == "FR"@ || kind == "MI"@ || kind == "PL"@ ==> draft.free_line(
            Section::Bounds,
            seq![kind, set, column],
            f,
        ) == draft.bound(kind, column, None, f) && draft.free_line(
            Section::Bounds,
            seq![kind, column],
            f,
        ) == draft.bound(kind, column, None, f),
        draft.fixed_line(Section::Bounds, seq![kind, set, column, value, value, value], f)
            == draft.bound(
            kind,
            column,
            if value.len() == 0 {
                None
            } else {
                Some(value)
            },
            f,
        ),
{
    reveal_strlit("UP");
    reveal_strlit("LO");
    reveal_strlit("FX");
    reveal_strlit("FR");
    reveal_strlit("MI");
    reveal_strlit("PL");
    assert("UP"@[0] == 'U' && "LO"@[0] == 'L' && "FX"@[0] == 'F' && "FX"@[1] == 'X' && "FR"@[1]
        == 'R' && "MI"@[0] == 'M' && "PL"@[0] == 'P');
}

/// The activities that a row admits. A range stretches from the right-hand side:
/// downwards on a row of type L, upwards on one of type G, and by its sign on one
/// of type E.
pub proof fn rows_admit_their_ranges<P: Fn(Real, Real) -> Real>(
    kind: RowKind,
    rhs: Real,
    range: Option<Real>,
    plus: P,
    t: real,
)
    requires
        forall|a: Real, b: Real| exact::is_sum(a, b, #[trigger] arithmetic::value(plus, a, b)),
        rhs.finite(),
        range matches Some(r) ==> r.finite() && arithmetic::value(plus, rhs, r).finite()
            && arithmetic::value(plus, rhs, r.absolute()).finite() && arithmetic::value(
            plus,
            rhs,
            r.absolute().opposite(),
        ).finite(),
    ensures
        ({
            let side = exact::number(rhs);
            let row = reader::row_sides(kind, rhs, range, plus);
            let size = match range {
                None => 0 as real,
                Some(r) => if exact::number(r) < 0 as real {
                    -exact::number(r)
                } else {
                    exact::number(r)
                },
            };
            exact::admits(row, t) <==> match kind {
                RowKind::Less => t <= side && (range is None || side - size <= t),
                RowKind::Greater => side <= t && (range is None || t <= side + size),
                RowKind::Equal => if range matches Some(r) && exact::number(r) < 0 as real {
                    side - size <= t && t <= side
                } else {
                    side <= t && t <= side + size
                },
            }
        }),
{
    if let Some(r) = range {
        exact::numbers_are_ordered(r, r);
        exact::numbers_are_ordered(r.absolute(), r.absolute());
        exact::numbers_are_ordered(zero(), r);
        assert(exact::is_sum(rhs, r, arithmetic::value(plus, rhs, r)));
        let (a, b) = (r.absolute(), r.absolute().opposite());
        assert(exact::is_sum(rhs, a, arithmetic::value(plus, rhs, a)));
        assert(exact::is_sum(rhs, b, arithmetic::value(plus, rhs, b)));
    }
}

/// The type of a row is what its line says, and a new row is compared with zero.
pub proof fn row_lines_say_how_to_compare(draft: Draft, after: Draft, kind: Seq<char>, name: Seq<char>)
    requires
        draft.wf(),
        draft.row(kind, name) == Ok::<Draft, FaultView>(after),
    ensures
        !draft.row_names.contains(name),
        after.row_names == draft.row_names.push(name),
        kind == "N"@ || kind == "E"@ || kind == "L"@ || kind == "G"@,
        kind == "N"@ ==> after.kinds == draft.kinds && after.has_objective && (after.roles.last()
            is Objective <==> !draft.has_objective) && !(after.roles.last() is Constraint),
        kind != "N"@ ==> {
            let i = draft.kinds.len() as int;
            &&& after.has_objective == draft.has_objective
            &&& after.kinds.len() == i + 1
            &&& after.kinds.drop_last() == draft.kinds
            &&& after.roles.last() == Row::Constraint(i as usize)
            &&& after.kinds[i] is Equal <==> kind == "E"@
            &&& after.kinds[i] is Less <==> kind == "L"@
            &&& after.kinds[i] is Greater <==> kind == "G"@
            &&& exact::number(after.rhs[i]) == 0 as real
            &&& after.ranges[i] is None
            &&& after.constraint_names[i] == name
        },
{
    reveal_strlit("N");
    reveal_strlit("E");
    reveal_strlit("L");
    reveal_strlit("G");
    assert("N"@[0] == 'N' && "E"@[0] == 'E' && "L"@[0] == 'L' && "G"@[0] == 'G');
    exact::numbers_are_ordered(zero(), zero());
    if draft.row_names.contains(name) {
        let k = draft.row_names.index_of(name);
        assert(draft.row_names[k] == name);
        assert(names::find(draft.row_names, name) is Some);
    }
    assert(after.kinds.drop_last() =~= draft.kinds || kind == "N"@);
}

/// A right-hand side of the objective is taken from the objective: the constant
/// and the side add up to zero. That of a constraint is its side, and a range is
/// kept for its row alone.
pub proof fn side_lines_set_one_row<F: Fn(&Vec<char>) -> Option<Real>>(
    draft: Draft,
    after: Draft,
    row: Seq<char>,
    value: Seq<char>,
    f: F,
    r: int,
)
    requires
        draft.wf(),
        0 <= r < draft.row_names.len(),
        draft.row_names[r] == row,
    ensures
        draft.side(row, value, f) == Ok::<Draft, FaultView>(after) ==> {
            &&& mps::reading(f, value) is Some
            &&& after == (Draft { rhs: after.rhs, constant: after.constant, ..draft })
            &&& draft.roles[r] is Objective ==> after.rhs == draft.rhs && (mps::reading(
                f,
                value,
            )->0.finite() ==> exact::number(after.constant) + exact::number(
                mps::reading(f, value)->0,
            ) == 0 as real)
            &&& draft.roles[r] is Free ==> after == draft
            &&& draft.roles[r] matches Row::Constraint(i) ==> {
                &&& after.constant == draft.constant
                &&& after.rhs.len() == draft.rhs.len()
                &&& Some(after.rhs[i as int]) == mps::reading(f, value)
                &&& forall|k: int|
                    0 <= k < draft.rhs.len() && k != i ==> #[trigger] after.rhs[k] == draft.rhs[k]
            }
        },
        draft.range(row, value, f) == Ok::<Draft, FaultView>(after) ==> {
            &&& mps::reading(f, value) is Some
            &&& after == (Draft { ranges: after.ranges, ..draft })
            &&& !(draft.roles[r] is Constraint) ==> after == draft
            &&& draft.roles[r] matches Row::Constraint(i) ==> {
                &&& after.ranges.len() == draft.ranges.len()
                &&& after.ranges[i as int] == mps::reading(f, value)
                &&& forall|k: int|
                    0 <= k < draft.ranges.len() && k != i ==> #[trigger] after.ranges[k]
                        == draft.ranges[k]
            }
        },
{
    names::found_where_it_stands(draft.row_names, r);
    if let Some(v) = mps::reading(f, value) {
        if v.finite() {
            exact::numbers_are_ordered(v, v);
        }
    }
}

/// A coefficient belongs to the row and the column of its line, and the first row
/// of type N holds the costs.
pub proof fn coefficients_go_where_they_are_named<F: Fn(&Vec<char>) -> Option<Real>>(
    draft: Draft,
    after: Draft,
    column: Seq<char>,
    row: Seq<char>,
    value: Seq<char>,
    f: F,
    r: int,
    j: int,
)
    requires
        draft.wf(),
        0 <= r < draft.row_names.len(),
        draft.row_names[r] == row,
        0 <= j < draft.column_names.len() <= usize::MAX,
        draft.column_names[j] == column,
        draft.coefficient(column, row, value, f) == Ok::<Draft, FaultView>(after),
    ensures
        mps::reading(f, value) is Some,
        after == (Draft { c: after.c, objective_set: after.objective_set, a: after.a, ..draft }),
        ({
            let v = mps::reading(f, value)->0;
            match draft.roles[r] {
                Row::Objective => {
                    &&& after.a == draft.a
                    &&& !draft.objective_set[j]
                    &&& after.objective_set[j]
                    &&& after.c[j] == v
                    &&& forall|k: int|
                        0 <= k < draft.c.len() && k != j ==> #[trigger] after.c[k] == draft.c[k]
                },
                Row::Free => after == draft,
                Row::Constraint(i) => {
                    &&& after.c == draft.c
                    &&& after.a.len() == draft.a.len() + 1
                    &&& after.a.drop_last() == draft.a
                    &&& after.a.last() == (i, j as usize, v)
                },
            }
        }),
{
    names::found_where_it_stands(draft.row_names, r);
    names::found_where_it_stands(draft.column_names, j);
    assert(draft.roles[r] is Constraint ==> after.a.drop_last() =~= draft.a);
}

/// Two pairs on a line are two lines of one pair.
pub proof fn pairs_are_lines<F: Fn(&Vec<char>) -> Option<Real>>(
    draft: Draft,
    first: Draft,
    name: Seq<char>,
    a: Seq<char>,
    u: Seq<char>,
    b: Seq<char>,
    v: Seq<char>,
    f: F,
)
    requires
        a != "'MARKER'"@,
        b != "'MARKER'"@,
    ensures
        draft.free_line(Section::Columns, seq![name, a, u], f) == Ok::<Draft, FaultView>(first)
            ==> draft.free_line(Section::Columns, seq![name, a, u, b, v], f) == first.free_line(
            Section::Columns,
            seq![name, b, v],
            f,
        ),
        draft.free_line(Section::Rhs, seq![name, a, u], f) == Ok::<Draft, FaultView>(first)
            ==> draft.free_line(Section::Rhs, seq![name, a, u, b, v], f) == first.free_line(
            Section::Rhs,
            seq![b, v],
            f,
        ),
        draft.free_line(Section::Ranges, seq![a, u], f) == Ok::<Draft, FaultView>(first)
            ==> draft.free_line(Section::Ranges, seq![a, u, b, v], f) == first.free_line(
            Section::Ranges,
            seq![name, b, v],
            f,
        ),
{
    let d = draft.with_column(name);
    let t = seq![name, a, u, b, v];
    if d.coefficient(name, a, u, f) is Ok {
        let after = d.coefficient(name, a, u, f)->Ok_0;
        assert(after.column_names == d.column_names);
        assert(names::find(d.column_names, name) is Some) by {
            if names::find(draft.column_names, name) is None {
                let k = draft.column_names.len() as int;
                assert(d.column_names[k] == name);
            }
        }
        assert(after.with_column(name) == after);
    }
}

/// The objective is symmetric: the order of the two columns of a product does not
/// matter, and each product is kept once, above the diagonal.
pub proof fn products_are_symmetric<F: Fn(&Vec<char>) -> Option<Real>>(
    draft: Draft,
    after: Draft,
    first: Seq<char>,
    second: Seq<char>,
    value: Seq<char>,
    f: F,
    i: int,
    j: int,
)
    requires
        draft.wf(),
        0 <= i <= j < draft.column_names.len() <= usize::MAX,
        draft.column_names[i] == first,
        draft.column_names[j] == second,
    ensures
        draft.quadratic(first, second, value, f) == draft.quadratic(second, first, value, f),
        draft.quadratic(first, second, value, f) == Ok::<Draft, FaultView>(after) ==> {
            &&& after == (Draft { q: after.q, ..draft })
            &&& after.q.len() == draft.q.len() + 1
            &&& after.q.drop_last() == draft.q
            &&& mps::reading(f, value) == Some(after.q.last().2)
            &&& after.q.last().0 == i && after.q.last().1 == j
        },
{
    names::found_where_it_stands(draft.column_names, i);
    names::found_where_it_stands(draft.column_names, j);
    if draft.quadratic(first, second, value, f) is Ok {
        let q = draft.quadratic(first, second, value, f)->Ok_0.q;
        assert(q.drop_last() =~= draft.q);
    }
}

} // verus!
