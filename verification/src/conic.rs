//! Conversion of ranged rows and bounds to `Ax + s = b`.

use crate::bounds::Bounds;
use crate::cone::Cone;
use crate::csc::{self, CscMatrix};
use crate::linked::Entries;
use crate::merge;
use crate::number::{minus_one, one, zero, Real};
use crate::order;
use crate::pack;
use crate::problem::{self, Constraint, Problem};
use vstd::prelude::*;

verus! {

/// Where a conic row comes from. `scale` is one or minus one.
#[derive(Clone, Copy, Debug, PartialEq, Eq, Structural)]
pub enum Output {
    Row { index: usize, scale: Real, equality: bool },
    Bound { column: usize, scale: Real, equality: bool },
    Cone(usize),
}

/// A value times one or minus one.
pub open spec fn scaled(scale: Real, v: Real) -> Real {
    if scale == one() {
        v
    } else {
        v.opposite()
    }
}

fn scale_by(scale: Real, v: Real) -> (r: Real)
    ensures
        r == scaled(scale, v),
{
    if scale == one() {
        v
    } else {
        v.neg()
    }
}

/// An output with the right-hand side of its row.
pub open spec fn row_side(index: usize, rhs: Real, scale: Real, equality: bool) -> (Output, Real) {
    (Output::Row { index, scale, equality }, rhs)
}

pub open spec fn bound_side(column: usize, rhs: Real, scale: Real, equality: bool) -> (
    Output,
    Real,
) {
    (Output::Bound { column, scale, equality }, rhs)
}

/// The conic rows of a range: one equality, or one inequality per finite side.
pub open spec fn sides(bounds: Bounds, row: bool, index: usize) -> Seq<(Output, Real)> {
    let side = |rhs: Real, scale: Real, equality: bool|
        if row {
            row_side(index, rhs, scale, equality)
        } else {
            bound_side(index, rhs, scale, equality)
        };
    if bounds.is_equality() {
        seq![side(bounds.lower, minus_one(), true)]
    } else {
        let low = if bounds.lower.finite() {
            seq![side(bounds.lower.opposite(), one(), false)]
        } else {
            Seq::empty()
        };
        let high = if bounds.upper.finite() {
            seq![side(bounds.upper, minus_one(), false)]
        } else {
            Seq::empty()
        };
        low + high
    }
}

/// The conic rows of the first `n` linear rows.
pub open spec fn row_sides(rows: Seq<Constraint>, linear: Seq<usize>, n: nat) -> Seq<
    (Output, Real),
>
    decreases n,
{
    if n == 0 {
        Seq::empty()
    } else {
        row_sides(rows, linear, (n - 1) as nat) + sides(
            linear_bounds(rows[linear[n - 1] as int]),
            true,
            (n - 1) as usize,
        )
    }
}

pub open spec fn linear_bounds(row: Constraint) -> Bounds {
    match row {
        Constraint::Linear(b) => b,
        _ => Bounds::free(),
    }
}

pub open spec fn conic_rhs(row: Constraint) -> Real {
    match row {
        Constraint::Cone { rhs, .. } => rhs,
        _ => zero(),
    }
}

/// The conic rows of the bounds of the first `n` variables.
pub open spec fn bound_sides(problem: Problem, n: nat) -> Seq<(Output, Real)>
    decreases n,
{
    if n == 0 {
        Seq::empty()
    } else {
        bound_sides(problem, (n - 1) as nat) + sides(
            problem.bounds_of(n - 1),
            false,
            (n - 1) as usize,
        )
    }
}

/// The conic rows of the first `n` cone coordinates.
pub open spec fn cone_sides(rows: Seq<Constraint>, conic: Seq<usize>, n: nat) -> Seq<
    (Output, Real),
> {
    Seq::new(n, |k: int| (Output::Cone(k as usize), conic_rhs(rows[conic[k] as int])))
}

/// All conic rows of a problem: linear rows, bounds, cone coordinates.
pub open spec fn all_sides(problem: Problem) -> Seq<(Output, Real)> {
    let linear = problem::positions(problem.rows@, false, problem.rows@.len());
    let conic = problem::positions(problem.rows@, true, problem.rows@.len());
    row_sides(problem.rows@, linear, linear.len()) + bound_sides(problem, problem.c@.len())
        + cone_sides(problem.rows@, conic, conic.len())
}

/// One more scalar row joins the last scalar cone if it is of the same kind.
pub open spec fn scalar_added(cones: Seq<Cone>, equality: bool) -> Seq<Cone> {
    if cones.len() > 0 && equality && cones.last() is Zero {
        cones.drop_last().push(Cone::Zero((cones.last()->Zero_0 + 1) as usize))
    } else if cones.len() > 0 && !equality && cones.last() is Nonnegative {
        cones.drop_last().push(Cone::Nonnegative((cones.last()->Nonnegative_0 + 1) as usize))
    } else if equality {
        cones.push(Cone::Zero(1))
    } else {
        cones.push(Cone::Nonnegative(1))
    }
}

pub open spec fn is_equality(output: Output) -> bool {
    match output {
        Output::Row { equality, .. } => equality,
        Output::Bound { equality, .. } => equality,
        Output::Cone(_) => false,
    }
}

/// The scalar cones of the first `n` scalar rows.
pub open spec fn scalar_cones(list: Seq<(Output, Real)>, n: nat) -> Seq<Cone>
    decreases n,
{
    if n == 0 {
        Seq::empty()
    } else {
        scalar_added(scalar_cones(list, (n - 1) as nat), is_equality(list[n - 1].0))
    }
}

/// Every scalar cone of `n` rows has at most `n` coordinates.
pub(crate) proof fn scalar_sizes(list: Seq<(Output, Real)>, n: nat)
    requires
        n <= usize::MAX,
    ensures
        forall|k: int|
            0 <= k < scalar_cones(list, n).len() ==> (match #[trigger] scalar_cones(list, n)[k] {
                Cone::Zero(m) => m <= n,
                Cone::Nonnegative(m) => m <= n,
                _ => false,
            }),
    decreases n,
{
    if n > 0 {
        scalar_sizes(list, (n - 1) as nat);
        let before = scalar_cones(list, (n - 1) as nat);
        let after = scalar_cones(list, n);
        assert forall|k: int| 0 <= k < after.len() implies (match #[trigger] after[k] {
            Cone::Zero(m) => m <= n,
            Cone::Nonnegative(m) => m <= n,
            _ => false,
        }) by {
            if k < before.len() {
                let c = before[k];
            }
        }
    }
}

/// Add a scalar row to a list of cones.
pub fn scalar(cones: &mut Vec<Cone>, equality: bool)
    requires
        old(cones)@.len() > 0 ==> match old(cones)@.last() {
            Cone::Zero(n) => n < usize::MAX,
            Cone::Nonnegative(n) => n < usize::MAX,
            _ => true,
        },
    ensures
        final(cones)@ == scalar_added(old(cones)@, equality),
{
    let ghost before = cones@;
    if cones.len() > 0 {
        let last: usize = cones.len() - 1;
        match cones[last] {
            Cone::Zero(n) => {
                if equality {
                    cones.set(last, Cone::Zero(n + 1));
                    assert(cones@ =~= before.drop_last().push(Cone::Zero((n + 1) as usize)));
                    return ;
                }
            },
            Cone::Nonnegative(n) => {
                if !equality {
                    cones.set(last, Cone::Nonnegative(n + 1));
                    assert(cones@ =~= before.drop_last().push(
                        Cone::Nonnegative((n + 1) as usize),
                    ));
                    return ;
                }
            },
            _ => {},
        }
    }
    if equality {
        cones.push(Cone::Zero(1));
    } else {
        cones.push(Cone::Nonnegative(1));
    }
}

/// The conic rows collected so far.
struct Sides {
    outputs: Vec<Output>,
    rhs: Vec<Real>,
    cones: Vec<Cone>,
}

/// The parts hold these sides, with scalar cones for the first `scalars`.
spec fn holds(parts: Sides, list: Seq<(Output, Real)>) -> bool {
    &&& parts.outputs@ == list.map_values(|s: (Output, Real)| s.0)
    &&& parts.rhs@ == list.map_values(|s: (Output, Real)| s.1)
    &&& parts.cones@ == scalar_cones(list, list.len())
}

proof fn scalar_prefix(left: Seq<(Output, Real)>, right: Seq<(Output, Real)>, n: nat)
    requires
        n <= left.len(),
        n <= right.len(),
        left.take(n as int) == right.take(n as int),
    ensures
        scalar_cones(left, n) == scalar_cones(right, n),
    decreases n,
{
    if n > 0 {
        assert(left.take(n as int)[n - 1] == right.take(n as int)[n - 1]);
        assert(left.take(n - 1) =~= left.take(n as int).take(n - 1));
        assert(right.take(n - 1) =~= right.take(n as int).take(n - 1));
        scalar_prefix(left, right, (n - 1) as nat);
    }
}

impl Sides {
    fn side(&mut self, output: Output, rhs: Real, Ghost(list): Ghost<Seq<(Output, Real)>>)
        requires
            holds(*old(self), list),
            list.len() < usize::MAX,
        ensures
            holds(*final(self), list.push((output, rhs))),
    {
        proof {
            scalar_sizes(list, list.len());
        }
        let equality = match output {
            Output::Row { equality, .. } => equality,
            Output::Bound { equality, .. } => equality,
            Output::Cone(_) => false,
        };
        scalar(&mut self.cones, equality);
        self.rhs.push(rhs);
        self.outputs.push(output);
        proof {
            let more = list.push((output, rhs));
            assert(list.take(list.len() as int) =~= more.take(list.len() as int));
            scalar_prefix(list, more, list.len());
            assert(self.outputs@ =~= more.map_values(|s: (Output, Real)| s.0));
            assert(self.rhs@ =~= more.map_values(|s: (Output, Real)| s.1));
        }
    }

    /// Append the sides of a range.
    fn append(
        &mut self,
        bounds: Bounds,
        row: bool,
        index: usize,
        Ghost(list): Ghost<Seq<(Output, Real)>>,
    )
        requires
            holds(*old(self), list),
            list.len() + 2 <= usize::MAX,
        ensures
            holds(*final(self), list + sides(bounds, row, index)),
    {
        if bounds.equality() {
            let scale = minus_one();
            let output = if row {
                Output::Row { index, scale, equality: true }
            } else {
                Output::Bound { column: index, scale, equality: true }
            };
            self.side(output, bounds.lower, Ghost(list));
            assert(list + sides(bounds, row, index) =~= list.push((output, bounds.lower)));
        } else {
            let ghost mut current = list;
            if bounds.lower.is_finite() {
                let scale = one();
                let output = if row {
                    Output::Row { index, scale, equality: false }
                } else {
                    Output::Bound { column: index, scale, equality: false }
                };
                let rhs = bounds.lower.neg();
                self.side(output, rhs, Ghost(current));
                proof {
                    current = current.push((output, rhs));
                }
            }
            if bounds.upper.is_finite() {
                let scale = minus_one();
                let output = if row {
                    Output::Row { index, scale, equality: false }
                } else {
                    Output::Bound { column: index, scale, equality: false }
                };
                self.side(output, bounds.upper, Ghost(current));
                proof {
                    current = current.push((output, bounds.upper));
                }
            }
            assert(current =~= list + sides(bounds, row, index));
        }
    }
}

/// The other sign.
pub open spec fn flipped(scale: Real) -> Real {
    if scale == one() {
        minus_one()
    } else {
        one()
    }
}

/// What a conic row is made of: a constraint row (`row`), or a variable, and
/// the sign its coefficients take.
pub struct Slot {
    pub row: bool,
    pub target: usize,
    pub scale: Real,
}

pub open spec fn slot(output: Output, linear: Seq<usize>, conic: Seq<usize>) -> Slot {
    match output {
        Output::Row { index, scale, .. } => Slot {
            row: true,
            target: linear[index as int],
            scale: flipped(scale),
        },
        Output::Cone(i) => Slot { row: true, target: conic[i as int], scale: one() },
        Output::Bound { column, scale, .. } => Slot {
            row: false,
            target: column,
            scale: flipped(scale),
        },
    }
}

/// The coefficient of a variable in a conic row, given its column.
pub open spec fn coefficient(slot: Slot, column: Seq<(usize, Real)>, j: int) -> Option<Real> {
    if slot.row {
        match merge::entry(column, slot.target) {
            Some(v) => Some(scaled(slot.scale, v)),
            None => None,
        }
    } else if slot.target == j {
        Some(slot.scale)
    } else {
        None
    }
}

/// The matrix has the coefficients of the conic rows.
pub open spec fn conic_matrix(
    matrix: CscMatrix,
    a: CscMatrix,
    outputs: Seq<Output>,
    linear: Seq<usize>,
    conic: Seq<usize>,
) -> bool {
    &&& matrix.row_count() == outputs.len()
    &&& matrix.column_count() == a.column_count()
    &&& forall|j: int|
        0 <= j < a.column_count() ==> merge::increasing(#[trigger] matrix.entries(j))
    &&& forall|j: int, at: usize|
        0 <= j < a.column_count() ==> #[trigger] merge::entry(matrix.entries(j), at) == (if at
            < outputs.len() {
            coefficient(slot(outputs[at as int], linear, conic), a.entries(j), j)
        } else {
            None
        })
}

/// The outputs refer to rows and variables that exist.
pub open spec fn outputs_fit(
    outputs: Seq<Output>,
    linear: Seq<usize>,
    conic: Seq<usize>,
    rows: nat,
    columns: nat,
) -> bool {
    &&& forall|at: int|
        0 <= at < outputs.len() ==> match #[trigger] outputs[at] {
            Output::Row { index, .. } => index < linear.len() && linear[index as int] < rows,
            Output::Cone(i) => i < conic.len() && conic[i as int] < rows,
            Output::Bound { column, .. } => column < columns,
        }
}

/// The list holds the conic rows with a given target, in order, with their signs.
spec fn lists_target(
    list: Seq<(usize, Real)>,
    outputs: Seq<Output>,
    linear: Seq<usize>,
    conic: Seq<usize>,
    row: bool,
    target: int,
    n: int,
) -> bool {
    &&& merge::increasing(list)
    &&& forall|k: int|
        0 <= k < list.len() ==> {
            &&& (#[trigger] list[k]).0 < n
            &&& slot(outputs[list[k].0 as int], linear, conic) == (Slot {
                row,
                target: target as usize,
                scale: list[k].1,
            })
        }
    &&& forall|at: int|
        0 <= at < n && slot(#[trigger] outputs[at], linear, conic).row == row && slot(
            outputs[at],
            linear,
            conic,
        ).target == target ==> list.contains(
            (at as usize, slot(outputs[at], linear, conic).scale),
        )
}

fn slot_of(output: Output, linear: &Vec<usize>, conic: &Vec<usize>) -> (s: Slot)
    requires
        match output {
            Output::Row { index, .. } => index < linear@.len(),
            Output::Cone(i) => i < conic@.len(),
            Output::Bound { .. } => true,
        },
    ensures
        s == slot(output, linear@, conic@),
{
    match output {
        Output::Row { index, scale, .. } => {
            let scale = if scale == one() {
                minus_one()
            } else {
                one()
            };
            Slot { row: true, target: linear[index], scale }
        },
        Output::Cone(i) => Slot { row: true, target: conic[i], scale: one() },
        Output::Bound { column, scale, .. } => {
            let scale = if scale == one() {
                minus_one()
            } else {
                one()
            };
            Slot { row: false, target: column, scale }
        },
    }
}

/// Group the conic rows by the row, or by the variable, that they are made of.
fn group_slots(
    outputs: &Vec<Output>,
    linear: &Vec<usize>,
    conic: &Vec<usize>,
    row: bool,
    count: usize,
    Ghost(rows): Ghost<nat>,
    Ghost(columns): Ghost<nat>,
) -> (lists: Vec<Entries>)
    requires
        outputs_fit(outputs@, linear@, conic@, rows, columns),
        count == (if row {
            rows
        } else {
            columns
        }),
    ensures
        lists@.len() == count,
        forall|t: int|
            0 <= t < count ==> lists_target(
                (#[trigger] lists@[t])@,
                outputs@,
                linear@,
                conic@,
                row,
                t,
                outputs@.len() as int,
            ),
{
    let mut lists: Vec<Entries> = Vec::new();
    let mut t: usize = 0;
    while t < count
        invariant
            t <= count,
            lists@.len() == t,
            forall|u: int| 0 <= u < t ==> (#[trigger] lists@[u])@.len() == 0,
        decreases count - t,
    {
        lists.push(Vec::new());
        t = t + 1;
    }
    let mut at: usize = 0;
    while at < outputs.len()
        invariant
            at <= outputs@.len(),
            lists@.len() == count,
            outputs_fit(outputs@, linear@, conic@, rows, columns),
            count == (if row {
                rows
            } else {
                columns
            }),
            forall|t: int|
                0 <= t < count ==> lists_target(
                    (#[trigger] lists@[t])@,
                    outputs@,
                    linear@,
                    conic@,
                    row,
                    t,
                    at as int,
                ),
        decreases outputs@.len() - at,
    {
        let output = outputs[at];
        assert(outputs@[at as int] == output);
        let s = slot_of(output, linear, conic);
        let ghost before = lists@;
        if s.row == row {
            let target: usize = s.target;
            let mut list: Entries = Vec::new();
            std::mem::swap(&mut list, &mut lists[target]);
            list.push((at, s.scale));
            lists.set(target, list);
        }
        proof {
            assert forall|t: int| 0 <= t < count implies lists_target(
                (#[trigger] lists@[t])@,
                outputs@,
                linear@,
                conic@,
                row,
                t,
                at + 1,
            ) by {
                let old = before[t]@;
                let new = lists@[t]@;
                assert(lists_target(old, outputs@, linear@, conic@, row, t, at as int));
                if s.row == row && t == s.target {
                    assert(new == old.push((at, s.scale)));
                    assert forall|a: int, b: int| 0 <= a < b < new.len() implies (
                    #[trigger] new[a]).0 < (#[trigger] new[b]).0 by {
                        if b < old.len() {
                            assert(old[a].0 < old[b].0);
                        } else {
                            assert(old[a].0 < at);
                        }
                    }
                    assert forall|o: int|
                        0 <= o < at + 1 && slot(
                            #[trigger] outputs@[o],
                            linear@,
                            conic@,
                        ).row == row && slot(outputs@[o], linear@, conic@).target
                            == t implies new.contains(
                        (o as usize, slot(outputs@[o], linear@, conic@).scale),
                    ) by {
                        let e = (o as usize, slot(outputs@[o], linear@, conic@).scale);
                        if o < at {
                            assert(old.contains(e));
                            let k = choose|k: int| 0 <= k < old.len() && old[k] == e;
                            assert(new[k] == e);
                        } else {
                            assert(new[old.len() as int] == e);
                        }
                    }
                    assert forall|k: int| 0 <= k < new.len() implies (#[trigger] new[k]).0 < at + 1
                        && slot(outputs@[new[k].0 as int], linear@, conic@) == (Slot {
                        row,
                        target: t as usize,
                        scale: new[k].1,
                    }) by {
                        if k < old.len() {
                            assert(new[k] == old[k]);
                        }
                    }
                } else {
                    assert(new == old);
                }
            }
        }
        at = at + 1;
    }
    lists
}

/// The list holds the coefficients of the conic rows in one column, once each.
spec fn gathered(
    list: Seq<(usize, Real)>,
    outputs: Seq<Output>,
    linear: Seq<usize>,
    conic: Seq<usize>,
    column: Seq<(usize, Real)>,
    j: int,
    bounds: bool,
) -> bool {
    &&& forall|k: int, l: int|
        0 <= k < list.len() && 0 <= l < list.len() && k != l ==> (#[trigger] list[k]).0 != (
        #[trigger] list[l]).0
    &&& forall|at: usize, w: Real| #[trigger]
        list.contains((at, w)) <==> at < outputs.len() && gathered_value(
            slot(outputs[at as int], linear, conic),
            column,
            j,
            bounds,
        ) == Some(w)
}

spec fn gathered_value(
    slot: Slot,
    column: Seq<(usize, Real)>,
    j: int,
    bounds: bool,
) -> Option<Real> {
    if slot.row || bounds {
        coefficient(slot, column, j)
    } else {
        None
    }
}

/// Adding the rows made of one more entry of the column.
proof fn gather_entry(
    list: Seq<(usize, Real)>,
    more: Seq<(usize, Real)>,
    targets: Seq<(usize, Real)>,
    outputs: Seq<Output>,
    linear: Seq<usize>,
    conic: Seq<usize>,
    column: Seq<(usize, Real)>,
    last: (usize, Real),
    j: int,
)
    requires
        gathered(list, outputs, linear, conic, column, j, false),
        merge::increasing(column.push(last)),
        outputs.len() <= usize::MAX,
        lists_target(targets, outputs, linear, conic, true, last.0 as int, outputs.len() as int),
        more == list + Seq::new(
            targets.len(),
            |k: int| (targets[k].0, scaled(targets[k].1, last.1)),
        ),
    ensures
        gathered(more, outputs, linear, conic, column.push(last), j, false),
{
    let n = list.len();
    assert forall|i: usize| #[trigger] merge::entry(column.push(last), i) == (if i == last.0 {
        Some(last.1)
    } else {
        merge::entry(column, i)
    }) by {
        merge::entry_pushed(column, last, i);
    }
    merge::entry_pushed(column, last, 0);
    if column.len() > 0 {
        let m = column.len() - 1;
        assert(column.push(last)[m].0 < column.push(last)[m + 1].0);
    }
    merge::entry_absent(column, column.len() as int, last.0);
    assert forall|at: usize, w: Real| #[trigger] more.contains((at, w)) <==> at < outputs.len()
        && gathered_value(
        slot(outputs[at as int], linear, conic),
        column.push(last),
        j,
        false,
    ) == Some(w) by {
        let s = slot(outputs[at as int], linear, conic);
        if more.contains((at, w)) {
            let k = choose|k: int| 0 <= k < more.len() && more[k] == (at, w);
            if k < n {
                assert(list[k] == (at, w));
                assert(list.contains((at, w)));
            } else {
                assert(targets[k - n].0 == at);
            }
        }
        if at < outputs.len() && gathered_value(s, column.push(last), j, false) == Some(w) {
            if s.target == last.0 {
                assert(targets.contains((at as usize, s.scale)));
                let k = choose|k: int| 0 <= k < targets.len() && targets[k] == (at, s.scale);
                assert(more[n + k] == (at, w));
            } else {
                assert(list.contains((at, w)));
                let k = choose|k: int| 0 <= k < list.len() && list[k] == (at, w);
                assert(more[k] == (at, w));
            }
        }
    }
    assert forall|k: int, l: int|
        0 <= k < more.len() && 0 <= l < more.len() && k != l implies (#[trigger] more[k]).0 != (
    #[trigger] more[l]).0 by {
        if k < n && l < n {
            assert(list[k].0 != list[l].0);
        } else if k >= n && l >= n {
            if k < l {
                assert(targets[k - n].0 < targets[l - n].0);
            } else {
                assert(targets[l - n].0 < targets[k - n].0);
            }
        } else {
            let (low, high) = if k < n {
                (k, l)
            } else {
                (l, k)
            };
            let t = targets[high - n];
            assert(list[low] == more[low]);
            assert(list.contains((list[low].0, list[low].1)));
            if list[low].0 == t.0 {
                let s = slot(outputs[t.0 as int], linear, conic);
                assert(s.target == last.0);
            }
        }
    }
}

/// Adding the rows made of the variable itself.
proof fn gather_bounds(
    list: Seq<(usize, Real)>,
    targets: Seq<(usize, Real)>,
    outputs: Seq<Output>,
    linear: Seq<usize>,
    conic: Seq<usize>,
    column: Seq<(usize, Real)>,
    j: int,
)
    requires
        gathered(list, outputs, linear, conic, column, j, false),
        outputs.len() <= usize::MAX,
        0 <= j <= usize::MAX,
        lists_target(targets, outputs, linear, conic, false, j, outputs.len() as int),
    ensures
        gathered(list + targets, outputs, linear, conic, column, j, true),
{
    let n = list.len();
    let more = list + targets;
    assert forall|at: usize, w: Real| #[trigger] more.contains((at, w)) <==> at < outputs.len()
        && gathered_value(slot(outputs[at as int], linear, conic), column, j, true) == Some(
        w,
    ) by {
        let s = slot(outputs[at as int], linear, conic);
        if more.contains((at, w)) {
            let k = choose|k: int| 0 <= k < more.len() && more[k] == (at, w);
            if k < n {
                assert(list[k] == (at, w));
                assert(list.contains((at, w)));
            } else {
                assert(targets[k - n].0 == at);
            }
        }
        if at < outputs.len() && gathered_value(s, column, j, true) == Some(w) {
            if s.row {
                assert(list.contains((at, w)));
                let k = choose|k: int| 0 <= k < list.len() && list[k] == (at, w);
                assert(more[k] == (at, w));
            } else {
                assert(targets.contains((at as usize, s.scale)));
                let k = choose|k: int| 0 <= k < targets.len() && targets[k] == (at, s.scale);
                assert(more[n + k] == (at, w));
            }
        }
    }
    assert forall|k: int, l: int|
        0 <= k < more.len() && 0 <= l < more.len() && k != l implies (#[trigger] more[k]).0 != (
    #[trigger] more[l]).0 by {
        if k < n && l < n {
            assert(list[k].0 != list[l].0);
        } else if k >= n && l >= n {
            if k < l {
                assert(targets[k - n].0 < targets[l - n].0);
            } else {
                assert(targets[l - n].0 < targets[k - n].0);
            }
        } else {
            let (low, high) = if k < n {
                (k, l)
            } else {
                (l, k)
            };
            assert(list[low] == more[low]);
            assert(list.contains((list[low].0, list[low].1)));
            assert(targets[high - n] == more[high]);
        }
    }
}

/// Sorting a gathered column gives its entries.
proof fn sorted_column(
    sorted: Seq<(usize, Real)>,
    list: Seq<(usize, Real)>,
    outputs: Seq<Output>,
    linear: Seq<usize>,
    conic: Seq<usize>,
    column: Seq<(usize, Real)>,
    j: int,
)
    requires
        gathered(list, outputs, linear, conic, column, j, true),
        order::ascending_rows(sorted),
        sorted.to_multiset() == list.to_multiset(),
    ensures
        merge::increasing(sorted),
        forall|at: usize| #[trigger]
            merge::entry(sorted, at) == (if at < outputs.len() {
                coefficient(slot(outputs[at as int], linear, conic), column, j)
            } else {
                None
            }),
{
    let want = |at: usize|
        if at < outputs.len() {
            coefficient(slot(outputs[at as int], linear, conic), column, j)
        } else {
            None
        };
    order::sorted_lookup(sorted, list, want);
    assert forall|at: usize| #[trigger] merge::entry(sorted, at) == (if at < outputs.len() {
        coefficient(slot(outputs[at as int], linear, conic), column, j)
    } else {
        None
    }) by {
        assert(want(at) == merge::entry(sorted, at));
    }
}

/// The column of the conic matrix for one variable.
fn gather_column(
    entries: &Entries,
    row_lists: &Vec<Entries>,
    bound_list: &Entries,
    j: usize,
    Ghost(outputs): Ghost<Seq<Output>>,
    Ghost(linear): Ghost<Seq<usize>>,
    Ghost(conic): Ghost<Seq<usize>>,
) -> (column: Entries)
    requires
        outputs.len() <= usize::MAX,
        merge::increasing(entries@),
        forall|a: int| 0 <= a < entries@.len() ==> (#[trigger] entries@[a]).0 < row_lists@.len(),
        forall|t: int|
            0 <= t < row_lists@.len() ==> lists_target(
                (#[trigger] row_lists@[t])@,
                outputs,
                linear,
                conic,
                true,
                t,
                outputs.len() as int,
            ),
        lists_target(bound_list@, outputs, linear, conic, false, j as int, outputs.len() as int),
    ensures
        merge::increasing(column@),
        forall|at: usize| #[trigger]
            merge::entry(column@, at) == (if at < outputs.len() {
                coefficient(slot(outputs[at as int], linear, conic), entries@, j as int)
            } else {
                None
            }),
{
    let mut column: Entries = Vec::new();
    let mut a: usize = 0;
    proof {
        assert(entries@.take(0) =~= Seq::<(usize, Real)>::empty());
        assert forall|at: usize, w: Real| #[trigger] column@.contains((at, w)) <==> at
            < outputs.len() && gathered_value(
            slot(outputs[at as int], linear, conic),
            entries@.take(0),
            j as int,
            false,
        ) == Some(w) by {}
    }
    while a < entries.len()
        invariant
            a <= entries@.len(),
            outputs.len() <= usize::MAX,
            merge::increasing(entries@),
            forall|a: int|
                0 <= a < entries@.len() ==> (#[trigger] entries@[a]).0 < row_lists@.len(),
            forall|t: int|
                0 <= t < row_lists@.len() ==> lists_target(
                    (#[trigger] row_lists@[t])@,
                    outputs,
                    linear,
                    conic,
                    true,
                    t,
                    outputs.len() as int,
                ),
            gathered(
                column@,
                outputs,
                linear,
                conic,
                entries@.take(a as int),
                j as int,
                false,
            ),
        decreases entries@.len() - a,
    {
        let (i, v): (usize, Real) = entries[a];
        assert(entries@[a as int].0 < row_lists@.len());
        let ghost start = column@;
        let ghost targets = row_lists@[i as int]@;
        let mut k: usize = 0;
        assert(start =~= start + Seq::new(
            0,
            |k: int| (targets[k].0, scaled(targets[k].1, v)),
        ));
        while k < row_lists[i].len()
            invariant
                i < row_lists@.len(),
                targets == row_lists@[i as int]@,
                k <= targets.len(),
                column@ == start + Seq::new(
                    k as nat,
                    |k: int| (targets[k].0, scaled(targets[k].1, v)),
                ),
            decreases targets.len() - k,
        {
            let (at, scale): (usize, Real) = row_lists[i][k];
            column.push((at, scale_by(scale, v)));
            k = k + 1;
            assert(column@ =~= start + Seq::new(
                k as nat,
                |k: int| (targets[k].0, scaled(targets[k].1, v)),
            ));
        }
        proof {
            let less = entries@.take(a as int);
            assert(entries@.take(a + 1) =~= less.push((i, v)));
            assert forall|x: int, y: int| 0 <= x < y < a + 1 implies (
            #[trigger] less.push((i, v))[x]).0 < (#[trigger] less.push((i, v))[y]).0 by {
                assert(entries@[x].0 < entries@[y].0);
            }
            assert(column@ =~= start + Seq::new(
                targets.len(),
                |k: int| (targets[k].0, scaled(targets[k].1, v)),
            ));
            gather_entry(
                start,
                column@,
                targets,
                outputs,
                linear,
                conic,
                less,
                (i, v),
                j as int,
            );
        }
        a = a + 1;
    }
    assert(entries@.take(a as int) =~= entries@);
    let ghost start = column@;
    let mut k: usize = 0;
    assert(start =~= start + bound_list@.take(0));
    while k < bound_list.len()
        invariant
            k <= bound_list@.len(),
            column@ == start + bound_list@.take(k as int),
        decreases bound_list@.len() - k,
    {
        column.push(bound_list[k]);
        k = k + 1;
        assert(column@ =~= start + bound_list@.take(k as int));
    }
    assert(bound_list@.take(k as int) =~= bound_list@);
    proof {
        gather_bounds(start, bound_list@, outputs, linear, conic, entries@, j as int);
    }
    let ghost list = column@;
    order::sort_by_row(&mut column);
    proof {
        sorted_column(column@, list, outputs, linear, conic, entries@, j as int);
    }
    column
}

/// CSC conic form. `p` is still upper triangular; the objective constant is kept.
#[derive(Clone, Debug)]
pub struct ConicData {
    pub p: Option<CscMatrix>,
    pub c: Vec<Real>,
    pub objective_constant: Real,
    pub a: CscMatrix,
    pub b: Vec<Real>,
    pub cones: Vec<Cone>,
}

/// Converts conic-form multipliers to native linear, bound and conic ones.
#[derive(Debug)]
pub struct ConicMap {
    outputs: Vec<Output>,
    variables: usize,
    linear: usize,
    conic: usize,
}

#[derive(Debug)]
pub struct ConicExport {
    pub problem: ConicData,
    pub map: ConicMap,
}

/// The conic form of a problem.
pub open spec fn is_conic_form(data: ConicData, map: ConicMap, problem: Problem) -> bool {
    let linear = problem::positions(problem.rows@, false, problem.rows@.len());
    let conic = problem::positions(problem.rows@, true, problem.rows@.len());
    let list = all_sides(problem);
    let scalars = (list.len() - conic.len()) as nat;
    &&& data.p == problem.p
    &&& data.c@ == problem.c@
    &&& data.objective_constant == problem.c0
    &&& data.b@ == list.map_values(|s: (Output, Real)| s.1)
    &&& data.cones@ == scalar_cones(list, scalars) + problem.cones@
    &&& conic_matrix(data.a, problem.a, map.output_seq(), linear, conic)
    &&& map.output_seq() == list.map_values(|s: (Output, Real)| s.0)
    &&& map.variable_total() == problem.c@.len()
    &&& map.linear_total() == linear.len()
    &&& map.conic_total() == conic.len()
}

proof fn sides_are_few(bounds: Bounds, row: bool, index: usize)
    ensures
        sides(bounds, row, index).len() <= 2,
        forall|k: int|
            0 <= k < sides(bounds, row, index).len() ==> (match (#[trigger] sides(
                bounds,
                row,
                index,
            )[k]).0 {
                Output::Row { index: i, .. } => row && i == index,
                Output::Bound { column, .. } => !row && column == index,
                Output::Cone(_) => false,
            }),
{
}

/// The row sides name linear rows, and there are at most two of each.
pub(crate) proof fn row_sides_fit(rows: Seq<Constraint>, linear: Seq<usize>, n: nat)
    requires
        n <= usize::MAX,
    ensures
        row_sides(rows, linear, n).len() <= 2 * n,
        forall|k: int|
            0 <= k < row_sides(rows, linear, n).len() ==> ((#[trigger] row_sides(
                rows,
                linear,
                n,
            )[k]).0 matches Output::Row { index, .. } && index < n),
    decreases n,
{
    if n > 0 {
        row_sides_fit(rows, linear, (n - 1) as nat);
        sides_are_few(linear_bounds(rows[linear[n - 1] as int]), true, (n - 1) as usize);
        let before = row_sides(rows, linear, (n - 1) as nat);
        let last = sides(linear_bounds(rows[linear[n - 1] as int]), true, (n - 1) as usize);
        let after = row_sides(rows, linear, n);
        assert forall|k: int| 0 <= k < after.len() implies ((
        #[trigger] after[k]).0 matches Output::Row { index, .. } && index < n) by {
            if k < before.len() {
                assert(after[k] == before[k]);
            } else {
                assert(after[k] == last[k - before.len()]);
            }
        }
    }
}

pub(crate) proof fn bound_sides_fit(problem: Problem, n: nat)
    requires
        n <= usize::MAX,
    ensures
        bound_sides(problem, n).len() <= 2 * n,
        forall|k: int|
            0 <= k < bound_sides(problem, n).len() ==> ((#[trigger] bound_sides(
                problem,
                n,
            )[k]).0 matches Output::Bound { column, .. } && column < n),
    decreases n,
{
    if n > 0 {
        bound_sides_fit(problem, (n - 1) as nat);
        sides_are_few(problem.bounds_of(n - 1), false, (n - 1) as usize);
        let before = bound_sides(problem, (n - 1) as nat);
        let last = sides(problem.bounds_of(n - 1), false, (n - 1) as usize);
        let after = bound_sides(problem, n);
        assert forall|k: int| 0 <= k < after.len() implies ((
        #[trigger] after[k]).0 matches Output::Bound { column, .. } && column < n) by {
            if k < before.len() {
                assert(after[k] == before[k]);
            } else {
                assert(after[k] == last[k - before.len()]);
            }
        }
    }
}

impl ConicMap {
    pub closed spec fn output_seq(&self) -> Seq<Output> {
        self.outputs@
    }

    pub closed spec fn variable_total(&self) -> nat {
        self.variables as nat
    }

    pub closed spec fn linear_total(&self) -> nat {
        self.linear as nat
    }

    pub closed spec fn conic_total(&self) -> nat {
        self.conic as nat
    }

    pub fn variable_count(&self) -> (n: usize)
        ensures
            n == self.variable_total(),
    {
        self.variables
    }

    pub fn linear_row_count(&self) -> (n: usize)
        ensures
            n == self.linear_total(),
    {
        self.linear
    }

    pub fn conic_row_count(&self) -> (n: usize)
        ensures
            n == self.conic_total(),
    {
        self.conic
    }

    pub fn output_dimension(&self) -> (n: usize)
        ensures
            n == self.output_seq().len(),
    {
        self.outputs.len()
    }

    /// Every conic row comes from a row or variable that there is.
    pub open spec fn wf(&self) -> bool {
        forall|k: int|
            0 <= k < self.output_seq().len() ==> match #[trigger] self.output_seq()[k] {
                Output::Row { index, .. } => index < self.linear_total(),
                Output::Bound { column, .. } => column < self.variable_total(),
                Output::Cone(i) => i < self.conic_total(),
            }
    }

    pub(crate) fn output(&self, k: usize) -> (output: Output)
        requires
            k < self.output_seq().len(),
        ensures
            output == self.output_seq()[k as int],
    {
        self.outputs[k]
    }

    /// Where the cone coordinates start among the conic rows.
    pub fn conic_offset(&self) -> (n: usize)
        requires
            self.conic_total() <= self.output_seq().len(),
        ensures
            n == self.output_seq().len() - self.conic_total(),
    {
        self.outputs.len() - self.conic
    }
}

/// The columns of the conic matrix.
fn conic_columns(
    a: &CscMatrix,
    outputs: &Vec<Output>,
    linear: &Vec<usize>,
    conic: &Vec<usize>,
) -> (matrix: CscMatrix)
    requires
        a.wf(),
        outputs_fit(
            outputs@,
            linear@,
            conic@,
            a.row_count() as nat,
            a.column_count() as nat,
        ),
    ensures
        conic_matrix(matrix, *a, outputs@, linear@, conic@),
{
    let rows: usize = a.rows();
    let n: usize = a.columns();
    let row_lists = group_slots(
        outputs,
        linear,
        conic,
        true,
        rows,
        Ghost(rows as nat),
        Ghost(n as nat),
    );
    let bound_lists = group_slots(
        outputs,
        linear,
        conic,
        false,
        n,
        Ghost(rows as nat),
        Ghost(n as nat),
    );
    let mut columns: Vec<Entries> = Vec::new();
    let mut j: usize = 0;
    while j < n
        invariant
            j <= n,
            n == a.column_count(),
            rows == a.row_count(),
            a.wf(),
            columns@.len() == j,
            row_lists@.len() == rows,
            bound_lists@.len() == n,
            forall|t: int|
                0 <= t < rows ==> lists_target(
                    (#[trigger] row_lists@[t])@,
                    outputs@,
                    linear@,
                    conic@,
                    true,
                    t,
                    outputs@.len() as int,
                ),
            forall|t: int|
                0 <= t < n ==> lists_target(
                    (#[trigger] bound_lists@[t])@,
                    outputs@,
                    linear@,
                    conic@,
                    false,
                    t,
                    outputs@.len() as int,
                ),
            forall|k: int| 0 <= k < j ==> merge::increasing((#[trigger] columns@[k])@),
            forall|k: int, at: usize|
                0 <= k < j ==> #[trigger] merge::entry(columns@[k]@, at) == (if at
                    < outputs@.len() {
                    coefficient(
                        slot(outputs@[at as int], linear@, conic@),
                        a.entries(k),
                        k,
                    )
                } else {
                    None
                }),
        decreases n - j,
    {
        let entries = a.column(j);
        proof {
            csc::column_is_increasing(*a, j as int);
            assert(outputs.len() == outputs@.len());
        }
        let column = gather_column(
            &entries,
            &row_lists,
            &bound_lists[j],
            j,
            Ghost(outputs@),
            Ghost(linear@),
            Ghost(conic@),
        );
        columns.push(column);
        j = j + 1;
    }
    let matrix = pack::pack_columns(outputs.len(), &columns);
    proof {
        assert forall|j: int| 0 <= j < a.column_count() implies merge::increasing(
            #[trigger] matrix.entries(j),
        ) by {
            assert(matrix.entries(j) == columns@[j]@);
        }
        assert forall|j: int, at: usize| 0 <= j < a.column_count() implies #[trigger] merge::entry(
            matrix.entries(j),
            at,
        ) == (if at < outputs@.len() {
            coefficient(slot(outputs@[at as int], linear@, conic@), a.entries(j), j)
        } else {
            None
        }) by {
            assert(matrix.entries(j) == columns@[j]@);
            assert(merge::entry(columns@[j]@, at) == merge::entry(matrix.entries(j), at));
        }
    }
    matrix
}

impl Problem {
    /// Expand finite ranged-row and variable-bound sides directly into CSC.
    pub fn into_conic(self) -> (export: ConicExport)
        requires
            self.wf(),
            2 * self.rows@.len() + 2 * self.c@.len() + 2 <= usize::MAX,
        ensures
            is_conic_form(export.problem, export.map, self),
            export.map.wf(),
    {
        let ghost problem = self;
        let n: usize = self.variable_count();
        let (linear, conic): (Vec<usize>, Vec<usize>) = problem::row_indices(&self.rows);
        proof {
            assert(self.rows.len() == self.rows@.len());
            problem::positions_are_exact(self.rows@, false, self.rows@.len());
            problem::positions_are_exact(self.rows@, true, self.rows@.len());
            problem::positions_are_all(self.rows@, self.rows@.len());
        }
        let mut parts = Sides { outputs: Vec::new(), rhs: Vec::new(), cones: Vec::new() };
        let ghost mut list: Seq<(Output, Real)> = Seq::empty();
        proof {
            assert(parts.outputs@ =~= list.map_values(|s: (Output, Real)| s.0));
            assert(parts.rhs@ =~= list.map_values(|s: (Output, Real)| s.1));
        }
        let mut i: usize = 0;
        while i < linear.len()
            invariant
                self == problem,
                i <= linear@.len(),
                linear@.len() <= self.rows@.len(),
                2 * self.rows@.len() + 2 * self.c@.len() + 2 <= usize::MAX,
                forall|k: int| 0 <= k < linear@.len() ==> (#[trigger] linear@[k]) < self.rows@.len(),
                list == row_sides(self.rows@, linear@, i as nat),
                list.len() <= 2 * i,
                holds(parts, list),
            decreases linear@.len() - i,
        {
            let row = linear[i];
            let bounds = match self.rows[row] {
                Constraint::Linear(b) => b,
                _ => Bounds::free(),
            };
            parts.append(bounds, true, i, Ghost(list));
            i = i + 1;
            proof {
                list = list + sides(bounds, true, (i - 1) as usize);
                row_sides_fit(self.rows@, linear@, i as nat);
            }
        }
        let ghost first = list;
        proof {
            assert(list =~= first + bound_sides(self, 0));
        }
        let mut j: usize = 0;
        while j < n
            invariant
                self == problem,
                self.wf(),
                j <= n,
                n == self.c@.len(),
                first.len() <= 2 * linear@.len(),
                linear@.len() <= self.rows@.len(),
                2 * self.rows@.len() + 2 * self.c@.len() + 2 <= usize::MAX,
                list == first + bound_sides(self, j as nat),
                list.len() <= first.len() + 2 * j,
                holds(parts, list),
            decreases n - j,
        {
            let bounds = self.variable_bounds(j);
            parts.append(bounds, false, j, Ghost(list));
            j = j + 1;
            proof {
                list = list + sides(bounds, false, (j - 1) as usize);
                assert(list =~= first + bound_sides(self, j as nat));
                bound_sides_fit(self, j as nat);
            }
        }
        let ghost second = list;
        let Sides { mut outputs, mut rhs, mut cones } = parts;
        let mut k: usize = 0;
        assert(second =~= second + cone_sides(self.rows@, conic@, 0));
        while k < conic.len()
            invariant
                self == problem,
                k <= conic@.len(),
                forall|k: int| 0 <= k < conic@.len() ==> (#[trigger] conic@[k]) < self.rows@.len(),
                list == second + cone_sides(self.rows@, conic@, k as nat),
                outputs@ == list.map_values(|s: (Output, Real)| s.0),
                rhs@ == list.map_values(|s: (Output, Real)| s.1),
            decreases conic@.len() - k,
        {
            let row = conic[k];
            let value = match self.rows[row] {
                Constraint::Cone { rhs, .. } => rhs,
                _ => zero(),
            };
            outputs.push(Output::Cone(k));
            rhs.push(value);
            proof {
                let before = list;
                list = second + cone_sides(self.rows@, conic@, (k + 1) as nat);
                assert(list =~= before.push((Output::Cone(k), value)));
                assert(outputs@ =~= list.map_values(|s: (Output, Real)| s.0));
                assert(rhs@ =~= list.map_values(|s: (Output, Real)| s.1));
            }
            k = k + 1;
        }
        let ghost scalars = cones@;
        let mut c: usize = 0;
        assert(scalars =~= scalars + self.cones@.take(0));
        while c < self.cones.len()
            invariant
                self == problem,
                c <= self.cones@.len(),
                cones@ == scalars + self.cones@.take(c as int),
            decreases self.cones@.len() - c,
        {
            cones.push(self.cones[c]);
            c = c + 1;
            assert(cones@ =~= scalars + self.cones@.take(c as int));
        }
        proof {
            assert(self.cones@.take(c as int) =~= self.cones@);
            assert(list == all_sides(self));
            row_sides_fit(self.rows@, linear@, linear@.len());
            bound_sides_fit(self, n as nat);
            assert(list.take(second.len() as int) =~= second.take(second.len() as int));
            scalar_prefix(second, list, second.len());
            assert forall|at: int| 0 <= at < outputs@.len() implies match #[trigger] outputs@[at] {
                Output::Row { index, .. } => index < linear@.len() && linear@[index as int]
                    < self.rows@.len(),
                Output::Cone(i) => i < conic@.len() && conic@[i as int] < self.rows@.len(),
                Output::Bound { column, .. } => column < n,
            } by {
                assert(outputs@[at] == list[at].0);
                if at < first.len() {
                    assert(list[at] == row_sides(self.rows@, linear@, linear@.len())[at]);
                } else if at < second.len() {
                    assert(list[at] == bound_sides(self, n as nat)[at - first.len()]);
                } else {
                    assert(list[at] == cone_sides(self.rows@, conic@, conic@.len())[at
                        - second.len()]);
                }
            }
        }
        let a = conic_columns(&self.a, &outputs, &linear, &conic);
        let map = ConicMap {
            outputs,
            variables: n,
            linear: linear.len(),
            conic: conic.len(),
        };
        ConicExport {
            problem: ConicData {
                p: self.p,
                c: self.c,
                objective_constant: self.c0,
                a,
                b: rhs,
                cones,
            },
            map,
        }
    }
}

} // verus!
