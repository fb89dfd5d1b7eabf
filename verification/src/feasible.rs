//! The conic form of a problem against the problem: the same points, the same
//! objective, and multipliers that mean the same.

use crate::arithmetic::Arithmetic;
use crate::bounds::Bounds;
use crate::cone::Cone;
use crate::conic::{self, ConicData, ConicMap, Output, Slot};
use crate::csc::CscMatrix;
use crate::exact;
use crate::export;
use crate::merge;
use crate::number::{infinity, minus_one, neg_infinity, one, zero, Real};
use crate::problem::{self, Constraint, Problem};
use crate::tape;
use vstd::prelude::*;

verus! {

/// A coefficient of a matrix as a number; what is not stored is zero.
pub open spec fn coefficient(a: CscMatrix, i: int, j: int) -> real {
    match merge::entry(a.entries(j), i as usize) {
        Some(v) => exact::number(v),
        None => 0 as real,
    }
}

/// The value of row `i` over the first `n` columns.
pub open spec fn row_value(a: CscMatrix, i: int, x: spec_fn(int) -> real, n: nat) -> real
    decreases n,
{
    if n == 0 {
        0 as real
    } else {
        row_value(a, i, x, (n - 1) as nat) + coefficient(a, i, n - 1) * x(n - 1)
    }
}

/// What is left of the right-hand side of a conic row.
pub open spec fn slack(data: ConicData, at: int, x: spec_fn(int) -> real) -> real {
    exact::number(data.b@[at]) - row_value(data.a, at, x, data.a.column_count() as nat)
}

/// What is left of the right-hand side of a cone coordinate of a problem.
pub open spec fn native_slack(problem: Problem, i: int, x: spec_fn(int) -> real) -> real {
    exact::number(problem.rows@[i]->Cone_rhs) - row_value(problem.a, i, x, problem.c@.len())
}

/// The first coordinate of block `k`.
pub open spec fn start(cones: Seq<Cone>, k: nat) -> int
    decreases k,
{
    if k == 0 {
        0
    } else {
        start(cones, (k - 1) as nat) + cones[k - 1].size()
    }
}

/// Coordinate `i` is one of block `k`.
pub open spec fn in_block(cones: Seq<Cone>, k: int, i: int) -> bool {
    0 <= k < cones.len() && start(cones, k as nat) <= i < start(cones, (k + 1) as nat)
}

/// Coordinate `i` is one of some block.
spec fn covered(cones: Seq<Cone>, i: int) -> bool {
    exists|k: int| #[trigger] in_block(cones, k, i)
}

/// The coordinates of zero cones are zero, and those of nonnegative cones are not
/// negative.
pub open spec fn lies_in(cones: Seq<Cone>, s: spec_fn(int) -> real) -> bool {
    forall|k: int, i: int| #[trigger]
        in_block(cones, k, i) ==> (cones[k] is Zero ==> s(i) == 0 as real) && (
        cones[k] is Nonnegative ==> s(i) >= 0 as real)
}

/// A side that is absent is absent to its own end.
pub open spec fn sided(b: Bounds) -> bool {
    &&& b.lower.finite() || b.lower == neg_infinity()
    &&& b.upper.finite() || b.upper == infinity()
}

/// Every variable lies within its bounds and every linear row within its sides.
pub open spec fn within_sides(problem: Problem, x: spec_fn(int) -> real) -> bool {
    &&& forall|j: int|
        0 <= j < problem.c@.len() ==> exact::admits(#[trigger] problem.bounds_of(j), x(j))
    &&& forall|i: int|
        0 <= i < problem.rows@.len() && #[trigger] problem.rows@[i] is Linear ==> exact::admits(
            problem.rows@[i]->Linear_0,
            row_value(problem.a, i, x, problem.c@.len()),
        )
}

/// The slack of a side of a range over an activity.
spec fn side_slack(side: (Output, Real), t: real) -> real {
    exact::number(side.1) - (if lowers(side.0) {
        -t
    } else {
        t
    })
}

/// The side bounds from below.
spec fn lowers(output: Output) -> bool {
    match output {
        Output::Row { scale, .. } => scale == one(),
        Output::Bound { scale, .. } => scale == one(),
        Output::Cone(_) => false,
    }
}

spec fn kept(side: (Output, Real), t: real) -> bool {
    if conic::is_equality(side.0) {
        side_slack(side, t) == 0 as real
    } else {
        side_slack(side, t) >= 0 as real
    }
}

proof fn sides_admit(b: Bounds, row: bool, index: usize, t: real)
    requires
        sided(b),
    ensures
        exact::admits(b, t) <==> (forall|k: int|
            0 <= k < conic::sides(b, row, index).len() ==> kept(
                #[trigger] conic::sides(b, row, index)[k],
                t,
            )),
{
    let list = conic::sides(b, row, index);
    exact::opposites(b.lower);
    if b.is_equality() {
        exact::numbers_are_ordered(b.lower, b.upper);
        assert(list.len() == 1);
        if forall|k: int| 0 <= k < list.len() ==> kept(#[trigger] list[k], t) {
            assert(kept(list[0], t));
        }
    } else {
        let low: int = if b.lower.finite() {
            1
        } else {
            0
        };
        if forall|k: int| 0 <= k < list.len() ==> kept(#[trigger] list[k], t) {
            if b.lower.finite() {
                assert(kept(list[0], t));
            }
            if b.upper.finite() {
                assert(kept(list[low], t));
            }
        }
    }
}

/// What the side of a range is compared with.
spec fn target(output: Output, problem: Problem, linear: Seq<usize>, x: spec_fn(int) -> real) -> real {
    match output {
        Output::Row { index, .. } => row_value(
            problem.a,
            linear[index as int] as int,
            x,
            problem.c@.len(),
        ),
        Output::Bound { column, .. } => x(column as int),
        Output::Cone(_) => 0 as real,
    }
}

spec fn all_kept(
    list: Seq<(Output, Real)>,
    problem: Problem,
    linear: Seq<usize>,
    x: spec_fn(int) -> real,
) -> bool {
    forall|k: int|
        0 <= k < list.len() ==> kept(
            #[trigger] list[k],
            target(list[k].0, problem, linear, x),
        )
}

proof fn kept_together(
    a: Seq<(Output, Real)>,
    b: Seq<(Output, Real)>,
    problem: Problem,
    linear: Seq<usize>,
    x: spec_fn(int) -> real,
)
    ensures
        all_kept(a + b, problem, linear, x) <==> all_kept(a, problem, linear, x) && all_kept(
            b,
            problem,
            linear,
            x,
        ),
{
    let c = a + b;
    if all_kept(c, problem, linear, x) {
        assert forall|k: int| 0 <= k < a.len() implies kept(
            #[trigger] a[k],
            target(a[k].0, problem, linear, x),
        ) by {
            assert(c[k] == a[k]);
        }
        assert forall|k: int| 0 <= k < b.len() implies kept(
            #[trigger] b[k],
            target(b[k].0, problem, linear, x),
        ) by {
            assert(c[a.len() + k] == b[k]);
        }
    }
}

proof fn rows_admit(problem: Problem, linear: Seq<usize>, x: spec_fn(int) -> real, n: nat)
    requires
        n <= linear.len() <= usize::MAX,
        forall|k: int|
            0 <= k < linear.len() ==> sided(
                conic::linear_bounds(problem.rows@[(#[trigger] linear[k]) as int]),
            ),
    ensures
        all_kept(conic::row_sides(problem.rows@, linear, n), problem, linear, x) <==> (forall|k: int|
            0 <= k < n ==> exact::admits(
                conic::linear_bounds(problem.rows@[(#[trigger] linear[k]) as int]),
                row_value(problem.a, linear[k] as int, x, problem.c@.len()),
            )),
    decreases n,
{
    if n > 0 {
        rows_admit(problem, linear, x, (n - 1) as nat);
        let b = conic::linear_bounds(problem.rows@[linear[n - 1] as int]);
        let last = conic::sides(b, true, (n - 1) as usize);
        let t = row_value(problem.a, linear[n - 1] as int, x, problem.c@.len());
        assert(sided(conic::linear_bounds(problem.rows@[linear[n - 1] as int])));
        sides_admit(b, true, (n - 1) as usize, t);
        kept_together(
            conic::row_sides(problem.rows@, linear, (n - 1) as nat),
            last,
            problem,
            linear,
            x,
        );
        assert forall|k: int| 0 <= k < last.len() implies target(
            (#[trigger] last[k]).0,
            problem,
            linear,
            x,
        ) == t by {}
    }
}

proof fn bounds_admit(problem: Problem, linear: Seq<usize>, x: spec_fn(int) -> real, n: nat)
    requires
        n <= problem.c@.len() <= usize::MAX,
        forall|j: int| 0 <= j < problem.c@.len() ==> sided(#[trigger] problem.bounds_of(j)),
    ensures
        all_kept(conic::bound_sides(problem, n), problem, linear, x) <==> (forall|j: int|
            0 <= j < n ==> exact::admits(#[trigger] problem.bounds_of(j), x(j))),
    decreases n,
{
    if n > 0 {
        bounds_admit(problem, linear, x, (n - 1) as nat);
        let b = problem.bounds_of(n - 1);
        let last = conic::sides(b, false, (n - 1) as usize);
        let t = x(n - 1);
        sides_admit(b, false, (n - 1) as usize, t);
        kept_together(conic::bound_sides(problem, (n - 1) as nat), last, problem, linear, x);
        assert forall|k: int| 0 <= k < last.len() implies target(
            (#[trigger] last[k]).0,
            problem,
            linear,
            x,
        ) == t by {}
    }
}

/// A sign that is one or minus one.
spec fn sign(scale: Real) -> real {
    if scale == one() {
        1 as real
    } else {
        -(1 as real)
    }
}

proof fn conic_row_values(
    matrix: CscMatrix,
    a: CscMatrix,
    slot: Slot,
    at: int,
    x: spec_fn(int) -> real,
    n: nat,
)
    requires
        0 <= at <= usize::MAX,
        slot.scale == one() || slot.scale == minus_one(),
        forall|j: int|
            0 <= j < n ==> #[trigger] merge::entry(matrix.entries(j), at as usize)
                == conic::coefficient(slot, a.entries(j), j),
    ensures
        row_value(matrix, at, x, n) == sign(slot.scale) * (if slot.row {
            row_value(a, slot.target as int, x, n)
        } else if slot.target < n {
            x(slot.target as int)
        } else {
            0 as real
        }),
    decreases n,
{
    exact::one_is_one();
    if n > 0 {
        conic_row_values(matrix, a, slot, at, x, (n - 1) as nat);
        let j = n - 1;
        assert(merge::entry(matrix.entries(j), at as usize) == conic::coefficient(
            slot,
            a.entries(j),
            j,
        ));
        if slot.row {
            if let Some(v) = merge::entry(a.entries(j), slot.target) {
                exact::opposites(v);
                assert(coefficient(matrix, at, j) == sign(slot.scale) * coefficient(
                    a,
                    slot.target as int,
                    j,
                ));
            }
            let (s, p, q, r) = (
                sign(slot.scale),
                row_value(a, slot.target as int, x, j as nat),
                coefficient(a, slot.target as int, j),
                x(j),
            );
            assert(coefficient(matrix, at, j) == s * q) by {
                assert(s * (0 as real) == 0 as real) by (nonlinear_arith);
            }
            assert(s * p + (s * q) * r == s * (p + q * r)) by (nonlinear_arith);
        } else {
            let r = x(j);
            assert((1 as real) * r == r && (-(1 as real)) * r == -r && (0 as real) * r
                == 0 as real) by (nonlinear_arith);
            assert(sign(slot.scale) * (0 as real) == 0 as real) by (nonlinear_arith);
        }
    } else {
        assert(sign(slot.scale) * (0 as real) == 0 as real) by (nonlinear_arith);
    }
}

proof fn starts_agree(a: Seq<Cone>, b: Seq<Cone>, k: nat)
    requires
        k <= a.len(),
        k <= b.len(),
        forall|i: int| 0 <= i < k ==> #[trigger] a[i] == b[i],
    ensures
        start(a, k) == start(b, k),
    decreases k,
{
    if k > 0 {
        starts_agree(a, b, (k - 1) as nat);
    }
}

/// Every coordinate before `n` is in a block, and the kinds of the blocks are the
/// kinds of their rows.
proof fn blocks_are_kinds(list: Seq<(Output, Real)>, n: nat)
    requires
        n <= list.len(),
        n <= usize::MAX,
    ensures
        ({
            let cones = conic::scalar_cones(list, n);
            &&& start(cones, cones.len()) == n
            &&& forall|k: int|
                0 <= k < cones.len() ==> (#[trigger] cones[k] is Zero || cones[k] is Nonnegative)
            &&& forall|k: int, i: int| #[trigger]
                in_block(cones, k, i) ==> 0 <= i < n && (cones[k] is Zero <==> conic::is_equality(
                    list[i].0,
                ))
            &&& forall|i: int| 0 <= i < n ==> #[trigger] covered(cones, i)
        }),
    decreases n,
{
    if n > 0 {
        let m = (n - 1) as nat;
        blocks_are_kinds(list, m);
        conic::scalar_sizes(list, m);
        let (old, cones) = (conic::scalar_cones(list, m), conic::scalar_cones(list, n));
        let equality = conic::is_equality(list[m as int].0);
        let grown = old.len() > 0 && (equality && old.last() is Zero || !equality
            && old.last() is Nonnegative);
        if grown {
            let l = (old.len() - 1) as nat;
            let c = old[l as int];
            assert(cones.len() == old.len());
            starts_agree(old, cones, l);
            assert(start(cones, cones.len()) == start(cones, l) + cones[l as int].size());
            assert(start(old, old.len()) == start(old, l) + c.size());
        } else {
            starts_agree(old, cones, old.len());
            assert(start(cones, cones.len()) == start(cones, old.len()) + 1);
        }
        assert forall|k: int, i: int| #[trigger] in_block(cones, k, i) implies 0 <= i < n && (
        cones[k] is Zero <==> conic::is_equality(list[i].0)) by {
            if k < old.len() {
                starts_agree(old, cones, k as nat);
                if k < old.len() - 1 || !grown {
                    starts_agree(old, cones, (k + 1) as nat);
                    assert(in_block(old, k, i));
                } else if i < m {
                    assert(start(old, old.len()) == m);
                    assert(in_block(old, k, i));
                } else {
                    assert(i == m);
                }
                if k == old.len() - 1 && grown {
                    first_start(old, k as nat);
                }
            } else {
                assert(i == m);
            }
        }
        assert forall|i: int| 0 <= i < n implies #[trigger] covered(cones, i) by {
            if i < m {
                assert(covered(old, i));
                let k = choose|k: int| #[trigger] in_block(old, k, i);
                starts_agree(old, cones, k as nat);
                if k < old.len() - 1 || !grown {
                    starts_agree(old, cones, (k + 1) as nat);
                }
                assert(in_block(cones, k, i));
            } else {
                assert(in_block(cones, cones.len() - 1, i)) by {
                    if grown {
                        first_start(old, (old.len() - 1) as nat);
                    }
                }
            }
        }
    }
}

proof fn first_start(cones: Seq<Cone>, k: nat)
    requires
        k <= cones.len(),
        forall|k: int|
            0 <= k < cones.len() ==> (#[trigger] cones[k] is Zero || cones[k] is Nonnegative),
    ensures
        0 <= start(cones, k),
    decreases k,
{
    if k > 0 {
        first_start(cones, (k - 1) as nat);
        assert(cones[k - 1] is Zero || cones[k - 1] is Nonnegative);
    }
}

/// The rows of the conic form are those of the problem: a row of a side has the
/// slack of that side, and a cone coordinate the slack that it has in the problem.
proof fn conic_slacks(
    data: ConicData,
    map: ConicMap,
    problem: Problem,
    x: spec_fn(int) -> real,
    at: int,
)
    requires
        problem.wf(),
        problem.rows@.len() <= usize::MAX,
        problem.c@.len() <= usize::MAX,
        map.wf(),
        conic::is_conic_form(data, map, problem),
        0 <= at < data.b@.len() <= usize::MAX,
    ensures
        ({
            let linear = problem::positions(problem.rows@, false, problem.rows@.len());
            let conic = problem::positions(problem.rows@, true, problem.rows@.len());
            let side = conic::all_sides(problem)[at];
            match side.0 {
                Output::Cone(k) => slack(data, at, x) == exact::number(side.1) - row_value(
                    problem.a,
                    conic[k as int] as int,
                    x,
                    problem.c@.len(),
                ),
                _ => slack(data, at, x) == side_slack(
                    side,
                    target(side.0, problem, linear, x),
                ),
            }
        }),
{
    exact::one_is_one();
    let linear = problem::positions(problem.rows@, false, problem.rows@.len());
    let conic = problem::positions(problem.rows@, true, problem.rows@.len());
    let list = conic::all_sides(problem);
    let outputs = map.output_seq();
    assert(outputs[at] == list[at].0);
    let s = conic::slot(outputs[at], linear, conic);
    let n = problem.c@.len();
    assert forall|j: int| 0 <= j < n implies #[trigger] merge::entry(
        data.a.entries(j),
        at as usize,
    ) == conic::coefficient(s, problem.a.entries(j), j) by {}
    conic_row_values(data.a, problem.a, s, at, x, n);
    let v = row_value(problem.a, s.target as int, x, n);
    let w = x(s.target as int);
    assert((1 as real) * v == v && (-(1 as real)) * v == -v) by (nonlinear_arith);
    assert((1 as real) * w == w && (-(1 as real)) * w == -w) by (nonlinear_arith);
}

/// The conic form of a problem has the same points. Its first blocks are scalar:
/// the slacks of their rows lie in them exactly when every variable is within its
/// bounds and every linear row within its sides. Its other blocks are those of the
/// problem, and their coordinates are the slacks of the cone rows.
pub proof fn conic_form_has_the_same_points(
    data: ConicData,
    map: ConicMap,
    problem: Problem,
    x: spec_fn(int) -> real,
)
    requires
        problem.wf(),
        2 * problem.rows@.len() + 2 * problem.c@.len() + 2 <= usize::MAX,
        map.wf(),
        conic::is_conic_form(data, map, problem),
        forall|j: int| 0 <= j < problem.c@.len() ==> sided(#[trigger] problem.bounds_of(j)),
        forall|i: int|
            0 <= i < problem.rows@.len() && #[trigger] problem.rows@[i] is Linear ==> sided(
                problem.rows@[i]->Linear_0,
            ),
    ensures
        data.p == problem.p,
        data.c@ == problem.c@,
        data.objective_constant == problem.c0,
        data.a.column_count() == problem.c@.len(),
        data.a.row_count() == data.b@.len(),
        ({
            let first = (data.cones@.len() - problem.cones@.len()) as int;
            let scalar = data.cones@.take(first);
            let offset = start(scalar, scalar.len());
            let conic = problem::positions(problem.rows@, true, problem.rows@.len());
            &&& 0 <= first
            &&& data.cones@.skip(first) == problem.cones@
            &&& forall|k: int|
                0 <= k < scalar.len() ==> (#[trigger] scalar[k] is Zero
                    || scalar[k] is Nonnegative)
            &&& data.b@.len() == offset + conic.len()
            &&& lies_in(scalar, |at: int| slack(data, at, x)) <==> within_sides(problem, x)
            &&& forall|k: int|
                0 <= k < conic.len() ==> slack(data, offset + k, x) == native_slack(
                    problem,
                    (#[trigger] conic[k]) as int,
                    x,
                )
        }),
{
    let linear = problem::positions(problem.rows@, false, problem.rows@.len());
    let conic = problem::positions(problem.rows@, true, problem.rows@.len());
    let list = conic::all_sides(problem);
    problem::positions_are_exact(problem.rows@, false, problem.rows@.len());
    problem::positions_are_exact(problem.rows@, true, problem.rows@.len());
    problem::positions_are_all(problem.rows@, problem.rows@.len());
    let rows = conic::row_sides(problem.rows@, linear, linear.len());
    let bounds = conic::bound_sides(problem, problem.c@.len());
    let cones = conic::cone_sides(problem.rows@, conic, conic.len());
    let scalars = (list.len() - conic.len()) as nat;
    conic::row_sides_fit(problem.rows@, linear, linear.len());
    conic::bound_sides_fit(problem, problem.c@.len());
    assert(scalars == rows.len() + bounds.len());
    let blocks = conic::scalar_cones(list, scalars);
    blocks_are_kinds(list, scalars);
    let first = (data.cones@.len() - problem.cones@.len()) as int;
    let scalar = data.cones@.take(first);
    assert(scalar =~= blocks);
    assert(data.cones@.skip(first) =~= problem.cones@);
    let s = |at: int| slack(data, at, x);
    assert forall|k: int| 0 <= k < linear.len() implies sided(
        conic::linear_bounds(problem.rows@[(#[trigger] linear[k]) as int]),
    ) by {
        assert(!(problem.rows@[linear[k] as int] is Cone));
    }
    rows_admit(problem, linear, x, linear.len());
    bounds_admit(problem, linear, x, problem.c@.len());
    kept_together(rows, bounds, problem, linear, x);
    let both = rows + bounds;
    assert forall|at: int| 0 <= at < scalars implies #[trigger] s(at) == side_slack(
        both[at],
        target(both[at].0, problem, linear, x),
    ) && both[at] == list[at] && !(list[at].0 is Cone) by {
        assert(both[at] == list[at]);
        conic_slacks(data, map, problem, x, at);
    }
    if lies_in(scalar, s) {
        assert forall|at: int| 0 <= at < both.len() implies kept(
            #[trigger] both[at],
            target(both[at].0, problem, linear, x),
        ) by {
            assert(covered(blocks, at));
            let k = choose|k: int| #[trigger] in_block(blocks, k, at);
            assert(in_block(scalar, k, at));
            assert(s(at) == side_slack(both[at], target(both[at].0, problem, linear, x)));
        }
        assert(all_kept(both, problem, linear, x));
        assert forall|i: int|
            0 <= i < problem.rows@.len() && #[trigger] problem.rows@[i] is Linear implies exact::admits(
            problem.rows@[i]->Linear_0,
            row_value(problem.a, i, x, problem.c@.len()),
        ) by {
            assert(linear.contains(i as usize));
            let k = linear.index_of(i as usize);
            assert(exact::admits(
                conic::linear_bounds(problem.rows@[linear[k] as int]),
                row_value(problem.a, linear[k] as int, x, problem.c@.len()),
            ));
        }
    }
    if within_sides(problem, x) {
        assert forall|k: int| 0 <= k < linear.len() implies exact::admits(
            conic::linear_bounds(problem.rows@[(#[trigger] linear[k]) as int]),
            row_value(problem.a, linear[k] as int, x, problem.c@.len()),
        ) by {
            assert(!(problem.rows@[linear[k] as int] is Cone));
        }
        assert(all_kept(both, problem, linear, x));
        assert forall|k: int, i: int| #[trigger] in_block(scalar, k, i) implies (
        scalar[k] is Zero ==> s(i) == 0 as real) && (scalar[k] is Nonnegative ==> s(i)
            >= 0 as real) by {
            assert(in_block(blocks, k, i));
            assert(kept(both[i], target(both[i].0, problem, linear, x)));
            assert(s(i) == side_slack(both[i], target(both[i].0, problem, linear, x)));
        }
    }
    assert forall|k: int| 0 <= k < conic.len() implies slack(data, scalars + k, x) == native_slack(
        problem,
        (#[trigger] conic[k]) as int,
        x,
    ) by {
        assert(list[scalars + k] == cones[k]);
        conic_slacks(data, map, problem, x, scalars + k);
        assert(problem.rows@[conic[k] as int] is Cone);
    }
}

/// The point that is zero everywhere.
pub open spec fn origin() -> spec_fn(int) -> real {
    |j: int| 0 as real
}

/// Numbers times weights, added up over the first `n` places.
pub open spec fn pairing(v: Seq<Real>, f: spec_fn(int) -> real, n: nat) -> real
    decreases n,
{
    if n == 0 {
        0 as real
    } else {
        pairing(v, f, (n - 1) as nat) + exact::times(exact::number(v[n - 1]), f(n - 1))
    }
}

/// What multipliers of the first `n` conic rows press in a direction: each times what
/// the direction adds to the slack of its row. Cone coordinates are left out.
pub open spec fn pressed(
    data: ConicData,
    outputs: Seq<Output>,
    y: Seq<Real>,
    x: spec_fn(int) -> real,
    n: nat,
) -> real
    decreases n,
{
    if n == 0 {
        0 as real
    } else {
        pressed(data, outputs, y, x, (n - 1) as nat) + (if outputs[n - 1] is Cone {
            0 as real
        } else {
            exact::times(
                exact::number(y[n - 1]),
                slack(data, n - 1, x) - slack(data, n - 1, origin()),
            )
        })
    }
}

proof fn values_at_the_origin(a: CscMatrix, i: int, n: nat)
    ensures
        row_value(a, i, origin(), n) == 0 as real,
    decreases n,
{
    if n > 0 {
        values_at_the_origin(a, i, (n - 1) as nat);
        let c = coefficient(a, i, n - 1);
        assert(c * (0 as real) == 0 as real) by (nonlinear_arith);
    }
}

proof fn pairing_updated(v: Seq<Real>, i: int, w: Real, f: spec_fn(int) -> real, n: nat)
    requires
        0 <= i < v.len(),
        n <= v.len(),
    ensures
        pairing(v.update(i, w), f, n) == pairing(v, f, n) + (if i < n {
            exact::times(exact::number(w), f(i)) - exact::times(exact::number(v[i]), f(i))
        } else {
            0 as real
        }),
    decreases n,
{
    if n > 0 {
        pairing_updated(v, i, w, f, (n - 1) as nat);
    }
}

proof fn zeros_press_nothing(len: nat, f: spec_fn(int) -> real, n: nat)
    requires
        n <= len,
    ensures
        pairing(tape::zeros(len), f, n) == 0 as real,
    decreases n,
{
    if n > 0 {
        zeros_press_nothing(len, f, (n - 1) as nat);
        exact::numbers_are_ordered(zero(), zero());
        exact::times_plain(f(n - 1), 0 as real);
    }
}

/// The activity of linear row `k` of a problem.
pub open spec fn linear_value(problem: Problem, x: spec_fn(int) -> real) -> spec_fn(int) -> real {
    let linear = problem::positions(problem.rows@, false, problem.rows@.len());
    |k: int| row_value(problem.a, linear[k] as int, x, problem.c@.len())
}

/// A direction moves the slack of the side of a range by the activity of the range:
/// up where the side bounds from below, else down.
proof fn slacks_move(
    data: ConicData,
    map: ConicMap,
    problem: Problem,
    x: spec_fn(int) -> real,
    at: int,
)
    requires
        problem.wf(),
        problem.rows@.len() <= usize::MAX,
        problem.c@.len() <= usize::MAX,
        map.wf(),
        conic::is_conic_form(data, map, problem),
        0 <= at < data.b@.len() <= usize::MAX,
    ensures
        ({
            let d = slack(data, at, x) - slack(data, at, origin());
            match map.output_seq()[at] {
                Output::Row { index, scale, .. } => d == sign(scale) * linear_value(problem, x)(
                    index as int,
                ),
                Output::Bound { column, scale, .. } => d == sign(scale) * x(column as int),
                Output::Cone(_) => true,
            }
        }),
{
    let linear = problem::positions(problem.rows@, false, problem.rows@.len());
    let side = conic::all_sides(problem)[at];
    assert(map.output_seq()[at] == side.0);
    conic_slacks(data, map, problem, x, at);
    conic_slacks(data, map, problem, origin(), at);
    if let Output::Row { index, .. } = side.0 {
        values_at_the_origin(problem.a, linear[index as int] as int, problem.c@.len());
    }
    let t = target(side.0, problem, linear, x);
    assert((1 as real) * t == t && (-(1 as real)) * t == -t) by (nonlinear_arith);
}

proof fn sides_have_signs(bounds: Bounds, row: bool, index: usize)
    ensures
        forall|k: int|
            0 <= k < conic::sides(bounds, row, index).len() ==> signed(
                (#[trigger] conic::sides(bounds, row, index)[k]).0,
            ),
{
}

spec fn signed(output: Output) -> bool {
    match output {
        Output::Row { scale, .. } => scale == one() || scale == minus_one(),
        Output::Bound { scale, .. } => scale == one() || scale == minus_one(),
        Output::Cone(_) => true,
    }
}

proof fn row_sides_have_signs(rows: Seq<Constraint>, linear: Seq<usize>, n: nat)
    ensures
        forall|k: int|
            0 <= k < conic::row_sides(rows, linear, n).len() ==> signed(
                (#[trigger] conic::row_sides(rows, linear, n)[k]).0,
            ),
    decreases n,
{
    if n > 0 {
        row_sides_have_signs(rows, linear, (n - 1) as nat);
        let b = conic::linear_bounds(rows[linear[n - 1] as int]);
        sides_have_signs(b, true, (n - 1) as usize);
        let (first, last) = (
            conic::row_sides(rows, linear, (n - 1) as nat),
            conic::sides(b, true, (n - 1) as usize),
        );
        assert forall|k: int| 0 <= k < (first + last).len() implies signed(
            (#[trigger] (first + last)[k]).0,
        ) by {
            if k >= first.len() {
                assert((first + last)[k] == last[k - first.len()]);
            }
        }
    }
}

proof fn bound_sides_have_signs(problem: Problem, n: nat)
    ensures
        forall|k: int|
            0 <= k < conic::bound_sides(problem, n).len() ==> signed(
                (#[trigger] conic::bound_sides(problem, n)[k]).0,
            ),
    decreases n,
{
    if n > 0 {
        bound_sides_have_signs(problem, (n - 1) as nat);
        let b = problem.bounds_of(n - 1);
        sides_have_signs(b, false, (n - 1) as usize);
        let (first, last) = (
            conic::bound_sides(problem, (n - 1) as nat),
            conic::sides(b, false, (n - 1) as usize),
        );
        assert forall|k: int| 0 <= k < (first + last).len() implies signed(
            (#[trigger] (first + last)[k]).0,
        ) by {
            if k >= first.len() {
                assert((first + last)[k] == last[k - first.len()]);
            }
        }
    }
}

impl<
    P: Fn(Real, Real) -> Real,
    T: Fn(Real, Real) -> Real,
    D: Fn(Real, Real) -> Real,
    H: Fn(Real, Real) -> Real,
> Arithmetic<P, T, D, H> {
    proof fn returned_multipliers_press(
        &self,
        data: ConicData,
        map: ConicMap,
        problem: Problem,
        y: Seq<Real>,
        x: spec_fn(int) -> real,
        n: nat,
    )
        requires
            self.exact(),
            problem.wf(),
            problem.rows@.len() <= usize::MAX,
            problem.c@.len() <= usize::MAX,
            map.wf(),
            conic::is_conic_form(data, map, problem),
            data.b@.len() <= usize::MAX,
            n <= data.b@.len(),
            n <= y.len(),
            forall|k: int| 0 <= k < n ==> signed(#[trigger] map.output_seq()[k]),
            ({
                let native = self.returned(
                    export::blank(map.linear_total(), map.variable_total(), map.conic_total()),
                    map.output_seq(),
                    y,
                    n,
                );
                all_finite(native.0) && all_finite(native.1)
            }),
        ensures
            ({
                let native = self.returned(
                    export::blank(map.linear_total(), map.variable_total(), map.conic_total()),
                    map.output_seq(),
                    y,
                    n,
                );
                &&& native.0.len() == map.linear_total()
                &&& native.1.len() == map.variable_total()
                &&& pressed(data, map.output_seq(), y, x, n) == pairing(
                    native.0,
                    linear_value(problem, x),
                    map.linear_total(),
                ) + pairing(native.1, x, map.variable_total())
            }),
        decreases n,
    {
        let blank = export::blank(map.linear_total(), map.variable_total(), map.conic_total());
        let outputs = map.output_seq();
        let rows = linear_value(problem, x);
        if n == 0 {
            zeros_press_nothing(map.linear_total(), rows, map.linear_total());
            zeros_press_nothing(map.variable_total(), x, map.variable_total());
        } else {
            let m = (n - 1) as nat;
            let before = self.returned(blank, outputs, y, m);
            let after = self.returned(blank, outputs, y, n);
            let (o, v) = (outputs[m as int], y[m as int]);
            assert(after == self.returned_one(before, o, v));
            exact::one_is_one();
            assert(signed(o));
            match o {
                Output::Row { index, scale, .. } => {
                    let i = index as int;
                    let term = self.product(scale, v);
                    let sum = self.sum(before.0[i], term);
                    self.lengths_stay(map, y, m);
                    assert(after.0[i] == sum);
                    assert(exact::is_sum(before.0[i], term, sum));
                    assert(exact::is_product(scale, v, term));
                    assert forall|k: int| 0 <= k < before.0.len() implies (
                    #[trigger] before.0[k]).finite() by {
                        assert(after.0[k].finite());
                    }
                    self.returned_multipliers_press(data, map, problem, y, x, m);
                    pairing_updated(before.0, i, sum, rows, map.linear_total());
                    slacks_move(data, map, problem, x, m as int);
                    self.shares_press(scale, v, before.0[i], rows(i));
                },
                Output::Bound { column, scale, .. } => {
                    let i = column as int;
                    let term = self.product(scale, v);
                    let sum = self.sum(before.1[i], term);
                    self.lengths_stay(map, y, m);
                    assert(after.1[i] == sum);
                    assert(exact::is_sum(before.1[i], term, sum));
                    assert(exact::is_product(scale, v, term));
                    assert forall|k: int| 0 <= k < before.1.len() implies (
                    #[trigger] before.1[k]).finite() by {
                        assert(after.1[k].finite());
                    }
                    self.returned_multipliers_press(data, map, problem, y, x, m);
                    pairing_updated(before.1, i, sum, x, map.variable_total());
                    slacks_move(data, map, problem, x, m as int);
                    self.shares_press(scale, v, before.1[i], x(i));
                },
                Output::Cone(_) => {
                    self.returned_multipliers_press(data, map, problem, y, x, m);
                },
            }
        }
    }

    /// A multiplier that is added presses by its own share more.
    proof fn shares_press(&self, scale: Real, v: Real, held: Real, t: real)
        requires
            self.exact(),
            scale == one() || scale == minus_one(),
            self.sum(held, self.product(scale, v)).finite(),
        ensures
            exact::times(exact::number(self.sum(held, self.product(scale, v))), t) == exact::times(
                exact::number(held),
                t,
            ) + exact::times(exact::number(v), sign(scale) * t),
    {
        exact::one_is_one();
        let term = self.product(scale, v);
        assert(exact::is_sum(held, term, self.sum(held, term)));
        assert(exact::is_product(scale, v, term));
        exact::times_spreads(exact::number(held), exact::number(term), t);
        let w = exact::number(v);
        reveal(exact::times);
        assert(((1 as real) * w) * t == w * ((1 as real) * t)) by (nonlinear_arith);
        assert((-(1 as real) * w) * t == w * (-(1 as real) * t)) by (nonlinear_arith);
    }

    proof fn lengths_stay(&self, map: ConicMap, y: Seq<Real>, n: nat)
        requires
            map.wf(),
            n <= map.output_seq().len(),
        ensures
            ({
                let native = self.returned(
                    export::blank(map.linear_total(), map.variable_total(), map.conic_total()),
                    map.output_seq(),
                    y,
                    n,
                );
                &&& native.0.len() == map.linear_total()
                &&& native.1.len() == map.variable_total()
                &&& native.2.len() == map.conic_total()
            }),
        decreases n,
    {
        if n > 0 {
            self.lengths_stay(map, y, (n - 1) as nat);
            assert(match map.output_seq()[n - 1] {
                Output::Row { index, .. } => index < map.linear_total(),
                Output::Bound { column, .. } => column < map.variable_total(),
                Output::Cone(i) => i < map.conic_total(),
            });
        }
    }

    /// Multipliers of the conic form mean the same as those that they are converted
    /// to: in every direction they press on the slacks of the conic rows what the
    /// others press on the linear rows and on the variables. So the one is
    /// stationary where the other is. A multiplier of a cone coordinate is its own.
    pub proof fn converted_multipliers_mean_the_same(
        &self,
        data: ConicData,
        map: ConicMap,
        problem: Problem,
        y: Seq<Real>,
        x: spec_fn(int) -> real,
    )
        requires
            self.exact(),
            problem.wf(),
            2 * problem.rows@.len() + 2 * problem.c@.len() + 2 <= usize::MAX,
            map.wf(),
            conic::is_conic_form(data, map, problem),
            y.len() == data.b@.len(),
            ({
                let native = self.returned(
                    export::blank(map.linear_total(), map.variable_total(), map.conic_total()),
                    map.output_seq(),
                    y,
                    y.len(),
                );
                all_finite(native.0) && all_finite(native.1)
            }),
        ensures
            ({
                let native = self.returned(
                    export::blank(map.linear_total(), map.variable_total(), map.conic_total()),
                    map.output_seq(),
                    y,
                    y.len(),
                );
                let offset = y.len() - map.conic_total();
                &&& pressed(data, map.output_seq(), y, x, y.len()) == pairing(
                    native.0,
                    linear_value(problem, x),
                    map.linear_total(),
                ) + pairing(native.1, x, map.variable_total())
                &&& forall|k: int|
                    0 <= k < map.conic_total() ==> #[trigger] native.2[k] == y[offset + k]
            }),
    {
        let linear = problem::positions(problem.rows@, false, problem.rows@.len());
        let conic = problem::positions(problem.rows@, true, problem.rows@.len());
        let list = conic::all_sides(problem);
        problem::positions_are_exact(problem.rows@, false, problem.rows@.len());
        problem::positions_are_exact(problem.rows@, true, problem.rows@.len());
        problem::positions_are_all(problem.rows@, problem.rows@.len());
        let rows = conic::row_sides(problem.rows@, linear, linear.len());
        let bounds = conic::bound_sides(problem, problem.c@.len());
        let cones = conic::cone_sides(problem.rows@, conic, conic.len());
        conic::row_sides_fit(problem.rows@, linear, linear.len());
        conic::bound_sides_fit(problem, problem.c@.len());
        row_sides_have_signs(problem.rows@, linear, linear.len());
        bound_sides_have_signs(problem, problem.c@.len());
        let scalars = rows.len() + bounds.len();
        assert forall|k: int| 0 <= k < list.len() implies signed(#[trigger] map.output_seq()[k])
            && (k < scalars ==> !(map.output_seq()[k] is Cone)) && (k >= scalars
            ==> map.output_seq()[k] == Output::Cone((k - scalars) as usize)) by {
            assert(map.output_seq()[k] == list[k].0);
            if k < rows.len() {
                assert(list[k] == rows[k]);
            } else if k < scalars {
                assert(list[k] == bounds[k - rows.len()]);
            } else {
                assert(list[k] == cones[k - scalars]);
            }
        }
        self.returned_multipliers_press(data, map, problem, y, x, y.len());
        self.cone_multipliers_stay(map, y, scalars, y.len());
    }

    proof fn cone_multipliers_stay(&self, map: ConicMap, y: Seq<Real>, offset: nat, n: nat)
        requires
            map.wf(),
            offset + map.conic_total() == map.output_seq().len(),
            map.conic_total() <= usize::MAX,
            n <= map.output_seq().len(),
            forall|k: int|
                0 <= k < map.output_seq().len() ==> if k < offset {
                    !((#[trigger] map.output_seq()[k]) is Cone)
                } else {
                    map.output_seq()[k] == Output::Cone((k - offset) as usize)
                },
        ensures
            ({
                let native = self.returned(
                    export::blank(map.linear_total(), map.variable_total(), map.conic_total()),
                    map.output_seq(),
                    y,
                    n,
                );
                forall|k: int|
                    0 <= k < map.conic_total() && offset + k < n ==> #[trigger] native.2[k]
                        == y[offset + k]
            }),
        decreases n,
    {
        if n > 0 {
            self.cone_multipliers_stay(map, y, offset, (n - 1) as nat);
            self.lengths_stay(map, y, (n - 1) as nat);
            if n - 1 < offset {
                assert(!(map.output_seq()[n - 1] is Cone));
            } else {
                assert(map.output_seq()[n - 1] == Output::Cone((n - 1 - offset) as usize));
            }
        }
    }
}

/// All numbers are finite.
pub open spec fn all_finite(v: Seq<Real>) -> bool {
    forall|k: int| 0 <= k < v.len() ==> (#[trigger] v[k]).finite()
}

} // verus!
