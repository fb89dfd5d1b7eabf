//! Finding trees of two-variable equalities.
//!
//! The variables are the vertices and the equalities the edges. A tree whose
//! variables are free, but for one at most, can be eliminated at once.

use crate::arithmetic::Arithmetic;
use crate::bounds::{Bounds, RowDomain};
use crate::chains::{self, Affine, DoubletonStep};
use crate::lifting;
use crate::linked::{self, Entries};
use crate::listing;
use crate::model::{self, Model};
use crate::number::{infinity, neg_infinity, one, zero, Real};
use crate::objective::Objective;
use crate::tape::Rule;
use vstd::prelude::*;

verus! {

/// The fewest equalities that are worth a tree.
pub const MIN_EDGES: usize = 8;

/// An equality `a * x_j + b * x_k = rhs`.
#[derive(Clone, Copy, Debug, PartialEq, Eq, Structural)]
pub struct Edge {
    pub row: usize,
    pub j: usize,
    pub k: usize,
    pub a: Real,
    pub b: Real,
    pub rhs: Real,
}

pub open spec fn unbounded(b: Bounds) -> bool {
    b.lower.same(neg_infinity()) && b.upper.same(infinity())
}

pub(crate) fn is_unbounded(b: Bounds) -> (r: bool)
    ensures
        r == unbounded(b),
{
    b.lower.equals(neg_infinity()) && b.upper.equals(infinity())
}

/// The edge of a row: two entries of the same magnitude, one of them on a free
/// variable. Such ratios neither grow nor vanish along a chain.
pub open spec fn edge(model: Model, row: usize) -> Option<Edge> {
    let entries = listing::line(model.a@, false, row as int);
    match model.rows@[row as int] {
        RowDomain::Linear(b) => {
            let ((j, a), (k, c)) = (entries[0], entries[1]);
            if b.is_equality() && entries.len() == 2 && a.absolute().same(c.absolute())
                && a.finite() && (unbounded(model.bounds@[j as int]) || unbounded(
                model.bounds@[k as int],
            )) {
                Some(Edge { row, j, k, a, b: c, rhs: b.lower })
            } else {
                None
            }
        },
        _ => None,
    }
}

/// The edges of the listed rows, from place `k` on.
pub open spec fn edges_of(model: Model, round: Seq<usize>, list: Seq<Edge>, k: int) -> Seq<Edge>
    decreases round.len() - k,
{
    if k >= round.len() {
        list
    } else {
        edges_of(
            model,
            round,
            match edge(model, round[k]) {
                Some(e) => list.push(e),
                None => list,
            },
            k + 1,
        )
    }
}

pub open spec fn edges_fit(edges: Seq<Edge>, rows: nat, columns: nat) -> bool {
    forall|e: int|
        0 <= e < edges.len() ==> (#[trigger] edges[e]).row < rows && edges[e].j < columns
            && edges[e].k < columns
}

/// The numbers of the edges at a variable among the first `n`.
pub open spec fn touching(edges: Seq<Edge>, j: int, n: nat) -> Seq<usize>
    decreases n,
{
    if n == 0 {
        Seq::empty()
    } else {
        let before = touching(edges, j, (n - 1) as nat);
        if edges[n - 1].j == j || edges[n - 1].k == j {
            before.push((n - 1) as usize)
        } else {
            before
        }
    }
}

/// The other end of an edge.
pub open spec fn other_end(e: Edge, j: usize) -> usize {
    if e.j == j {
        e.k
    } else {
        e.j
    }
}

/// A component that grows: its variables, how many edges reached a new one, how
/// often an edge was met, and the variables that were seen.
pub ghost struct Growth {
    pub component: Seq<usize>,
    pub rows: nat,
    pub incidences: nat,
    pub seen: Seq<bool>,
}

/// The edges at `j`, the latest first, with `t` left.
pub open spec fn around(edges: Seq<Edge>, list: Seq<usize>, j: usize, g: Growth, t: nat) -> Growth
    decreases t,
{
    if t == 0 {
        g
    } else {
        let other = other_end(edges[list[t - 1] as int], j);
        let counted = Growth { incidences: g.incidences + 1, ..g };
        around(
            edges,
            list,
            j,
            if g.seen[other as int] {
                counted
            } else {
                Growth {
                    component: g.component.push(other),
                    rows: g.rows + 1,
                    seen: g.seen.update(other as int, true),
                    ..counted
                }
            },
            (t - 1) as nat,
        )
    }
}

/// The component grown from its member `cursor` on, with at most `fuel` members.
pub open spec fn grown(edges: Seq<Edge>, g: Growth, cursor: int, fuel: nat) -> Growth
    decreases fuel,
{
    if fuel == 0 || cursor >= g.component.len() {
        g
    } else {
        let j = g.component[cursor];
        let list = touching(edges, j as int, edges.len());
        grown(edges, around(edges, list, j, g, list.len()), cursor + 1, (fuel - 1) as nat)
    }
}

/// The representative of a component: its bounded variable, or the one in most
/// rows, the last such.
pub ghost struct Pick {
    pub bounded: nat,
    pub first: usize,
    pub longest: usize,
}

pub open spec fn picked(model: Model, component: Seq<usize>, p: Pick, k: int) -> Pick
    decreases component.len() - k,
{
    if k >= component.len() {
        p
    } else {
        let j = component[k];
        let (here, best) = (
            linked::line_items(model.a@, true, j as int).len(),
            linked::line_items(model.a@, true, p.longest as int).len(),
        );
        picked(
            model,
            component,
            Pick {
                bounded: p.bounded + if unbounded(model.bounds@[j as int]) {
                    0nat
                } else {
                    1
                },
                first: if p.bounded == 0 && !unbounded(model.bounds@[j as int]) {
                    j
                } else {
                    p.first
                },
                longest: if here > best || here == best && j >= p.longest {
                    j
                } else {
                    p.longest
                },
            },
            k + 1,
        )
    }
}

/// An elimination without the coefficients that it carries.
pub ghost struct Branch {
    pub column: usize,
    pub parent: usize,
    pub row: usize,
    pub pivot: Real,
    pub other: Real,
    pub rhs: Real,
}

pub open spec fn branch_of(step: DoubletonStep) -> Branch {
    Branch {
        column: step.column,
        parent: step.parent,
        row: step.row,
        pivot: step.pivot,
        other: step.other,
        rhs: step.rhs,
    }
}

pub open spec fn branches(steps: Seq<DoubletonStep>) -> Seq<Branch> {
    Seq::new(steps.len(), |s: int| branch_of(steps[s]))
}

/// Every step carries its column's cost and coefficients outside its own row.
pub open spec fn steps_carry(steps: Seq<DoubletonStep>, model: Model, objective: Objective) -> bool {
    forall|s: int|
        0 <= s < steps.len() ==> {
            &&& (#[trigger] steps[s]).objective == objective.c@[steps[s].column as int]
            &&& steps[s].entries@ == outside(
                listing::line(model.a@, true, steps[s].column as int),
                steps[s].row,
            )
        }
}

/// The entries but for one row.
pub open spec fn outside(entries: Seq<(usize, Real)>, row: usize) -> Seq<(usize, Real)>
    decreases entries.len(),
{
    if entries.len() == 0 {
        Seq::empty()
    } else {
        let before = outside(entries.drop_last(), row);
        if entries.last().0 == row {
            before
        } else {
            before.push(entries.last())
        }
    }
}

fn list_outside(entries: &Entries, row: usize, Ghost(rows): Ghost<nat>) -> (out: Entries)
    requires
        model::in_range(entries@, rows),
    ensures
        out@ == outside(entries@, row),
        model::in_range(out@, rows),
{
    let mut out: Entries = Vec::new();
    let mut k: usize = 0;
    assert(entries@.take(0) =~= Seq::<(usize, Real)>::empty());
    while k < entries.len()
        invariant
            k <= entries@.len(),
            model::in_range(entries@, rows),
            model::in_range(out@, rows),
            out@ == outside(entries@.take(k as int), row),
        decreases entries@.len() - k,
    {
        assert(entries@.take(k + 1).drop_last() =~= entries@.take(k as int));
        assert(entries@[k as int].0 < rows);
        if entries[k].0 != row {
            out.push(entries[k]);
        }
        k = k + 1;
    }
    assert(entries@.take(k as int) =~= entries@);
    out
}

/// Variable `j` is in the walk.
pub open spec fn climbs(order: Seq<(usize, Option<usize>)>, j: int) -> bool {
    exists|k: int| 0 <= k < order.len() && (#[trigger] order[k]).0 == j
}

/// A tree as it is walked from its representative.
pub ghost struct Climb {
    /// Variables with the edge to their parent.
    pub order: Seq<(usize, Option<usize>)>,
    pub maps: Seq<Option<Affine>>,
    pub steps: Seq<Branch>,
    pub valid: bool,
}

impl<
    P: Fn(Real, Real) -> Real,
    T: Fn(Real, Real) -> Real,
    D: Fn(Real, Real) -> Real,
    H: Fn(Real, Real) -> Real,
> Arithmetic<P, T, D, H> {
    /// The children of `parent`, the latest edge first, with `t` edges left.
    pub open spec fn children(
        &self,
        edges: Seq<Edge>,
        list: Seq<usize>,
        parent: usize,
        from: Option<usize>,
        map: Affine,
        c: Climb,
        t: nat,
    ) -> Climb
        decreases t,
    {
        if t == 0 || !c.valid {
            c
        } else if from == Some(list[t - 1]) {
            self.children(edges, list, parent, from, map, c, (t - 1) as nat)
        } else {
            let number = list[t - 1];
            let e = edges[number as int];
            let column = other_end(e, parent);
            let (pivot, other) = if e.j == parent {
                (e.b, e.a)
            } else {
                (e.a, e.b)
            };
            let ratio = self.quotient(other.opposite(), pivot);
            let offset = self.sum(self.quotient(e.rhs, pivot), self.product(ratio, map.0));
            let slope = self.product(ratio, map.1);
            self.children(
                edges,
                list,
                parent,
                from,
                map,
                if offset.finite() && slope.finite() {
                    Climb {
                        order: c.order.push((column, Some(number))),
                        maps: c.maps.update(column as int, Some((offset, slope))),
                        steps: c.steps.push(
                            Branch { column, parent, row: e.row, pivot, other, rhs: e.rhs },
                        ),
                        valid: true,
                    }
                } else {
                    Climb { valid: false, ..c }
                },
                (t - 1) as nat,
            )
        }
    }

    /// The tree from its member `cursor` on, parents before children.
    pub open spec fn climbed(&self, edges: Seq<Edge>, c: Climb, cursor: int, fuel: nat) -> Climb
        decreases fuel,
    {
        if fuel == 0 || cursor >= c.order.len() || !c.valid {
            c
        } else {
            let (parent, from) = c.order[cursor];
            let list = touching(edges, parent as int, edges.len());
            let map = match c.maps[parent as int] {
                Some(map) => map,
                None => (zero(), zero()),
            };
            self.climbed(
                edges,
                self.children(edges, list, parent, from, map, c, list.len()),
                cursor + 1,
                (fuel - 1) as nat,
            )
        }
    }

    /// The walk of a tree from its representative.
    pub open spec fn tree_walk(&self, edges: Seq<Edge>, root: usize, columns: nat) -> Climb {
        self.climbed(
            edges,
            Climb {
                order: seq![(root, None)],
                maps: Seq::new(columns, |j: int| None).update(
                    root as int,
                    Some((zero(), one())),
                ),
                steps: Seq::empty(),
                valid: true,
            },
            0,
            columns,
        )
    }
}

/// The component of an edge's first variable.
pub open spec fn component_of(edges: Seq<Edge>, start: usize, seen: Seq<bool>) -> Growth {
    grown(
        edges,
        Growth {
            component: seq![start],
            rows: 0,
            incidences: 0,
            seen: seen.update(start as int, true),
        },
        0,
        seen.len(),
    )
}

/// The representative of a component that is a tree of enough edges with one
/// bounded variable at most.
pub open spec fn root_of(model: Model, g: Growth) -> Option<usize> {
    let p = picked(
        model,
        g.component,
        Pick { bounded: 0, first: g.component[0], longest: g.component[0] },
        0,
    );
    if g.rows < MIN_EDGES || g.incidences / 2 != g.rows || p.bounded >= 2 {
        None
    } else if p.bounded == 1 {
        Some(p.first)
    } else {
        Some(p.longest)
    }
}

fn find_edges<E: Fn() -> bool>(model: &Model, round: &Vec<usize>, expired: &E) -> (r: Option<
    Vec<Edge>,
>)
    requires
        model.wf(),
        forall|k: int| 0 <= k < round@.len() ==> #[trigger] round@[k] < model.rows@.len(),
        call_requires(*expired, ()),
    ensures
        match r {
            Some(edges) => {
                &&& edges@ == edges_of(*model, round@, Seq::empty(), 0)
                &&& edges_fit(edges@, model.rows@.len(), model.bounds@.len())
            },
            None => call_ensures(*expired, (), true),
        },
{
    let mut edges: Vec<Edge> = Vec::new();
    assert(edges@ =~= Seq::<Edge>::empty());
    let mut k: usize = 0;
    while k < round.len()
        invariant
            k <= round@.len(),
            model.wf(),
            forall|k: int| 0 <= k < round@.len() ==> #[trigger] round@[k] < model.rows@.len(),
            call_requires(*expired, ()),
            edges_fit(edges@, model.rows@.len(), model.bounds@.len()),
            edges_of(*model, round@, Seq::empty(), 0) == edges_of(
                *model,
                round@,
                edges@,
                k as int,
            ),
        decreases round@.len() - k,
    {
        if k % 256 == 0 && expired() {
            return None;
        }
        let row: usize = round[k];
        assert(round@[k as int] < model.rows@.len());
        match model.rows[row] {
            RowDomain::Linear(b) => {
                let entries = model.row_entries(row);
                if b.equality() && entries.len() == 2 {
                    let (j, a): (usize, Real) = entries[0];
                    let (l, c): (usize, Real) = entries[1];
                    assert(entries@[0].0 < model.bounds@.len() && entries@[1].0
                        < model.bounds@.len());
                    if a.abs().equals(c.abs()) && a.is_finite() && (is_unbounded(model.bounds[j])
                        || is_unbounded(model.bounds[l])) {
                        edges.push(Edge { row, j, k: l, a, b: c, rhs: b.lower });
                    }
                }
            },
            _ => {},
        }
        k = k + 1;
    }
    Some(edges)
}

/// For every variable, the numbers of its edges.
pub open spec fn incidence_lists(lists: Seq<Vec<usize>>, edges: Seq<Edge>, columns: nat) -> bool {
    &&& lists.len() == columns
    &&& forall|j: int|
        0 <= j < columns ==> (#[trigger] lists[j])@ == touching(edges, j, edges.len())
}

proof fn touching_in_range(edges: Seq<Edge>, j: int, n: nat)
    requires
        n <= edges.len(),
        edges.len() <= usize::MAX,
    ensures
        forall|t: int|
            0 <= t < touching(edges, j, n).len() ==> (#[trigger] touching(edges, j, n)[t]) < n,
    decreases n,
{
    if n > 0 {
        touching_in_range(edges, j, (n - 1) as nat);
        let before = touching(edges, j, (n - 1) as nat);
        assert forall|t: int| 0 <= t < touching(edges, j, n).len() implies (
        #[trigger] touching(edges, j, n)[t]) < n by {
            if t < before.len() {
                assert(before[t] < n - 1);
            }
        }
    }
}

fn list_incidences(edges: &Vec<Edge>, columns: usize, Ghost(rows): Ghost<nat>) -> (lists: Vec<
    Vec<usize>,
>)
    requires
        edges_fit(edges@, rows, columns as nat),
    ensures
        incidence_lists(lists@, edges@, columns as nat),
{
    let mut lists: Vec<Vec<usize>> = Vec::new();
    let mut j: usize = 0;
    while j < columns
        invariant
            j <= columns,
            lists@.len() == j,
            forall|i: int| 0 <= i < j ==> (#[trigger] lists@[i])@ =~= Seq::<usize>::empty(),
        decreases columns - j,
    {
        lists.push(Vec::new());
        j = j + 1;
    }
    let mut e: usize = 0;
    while e < edges.len()
        invariant
            e <= edges@.len(),
            lists@.len() == columns,
            edges_fit(edges@, rows, columns as nat),
            forall|i: int|
                0 <= i < columns ==> (#[trigger] lists@[i])@ == touching(edges@, i, e as nat),
        decreases edges@.len() - e,
    {
        let (j, k): (usize, usize) = (edges[e].j, edges[e].k);
        assert(edges@[e as int].j < columns);
        let ghost before = lists@;
        let mut list: Vec<usize> = Vec::new();
        std::mem::swap(&mut list, &mut lists[j]);
        list.push(e);
        lists.set(j, list);
        if k != j {
            let mut list: Vec<usize> = Vec::new();
            std::mem::swap(&mut list, &mut lists[k]);
            list.push(e);
            lists.set(k, list);
        }
        proof {
            assert forall|i: int| 0 <= i < columns implies (#[trigger] lists@[i])@ == touching(
                edges@,
                i,
                (e + 1) as nat,
            ) by {
                assert(before[i]@ == touching(edges@, i, e as nat));
            }
        }
        e = e + 1;
    }
    lists
}

fn grow(
    edges: &Vec<Edge>,
    lists: &Vec<Vec<usize>>,
    start: usize,
    seen: &mut Vec<bool>,
    Ghost(rows): Ghost<nat>,
) -> (r: (Vec<usize>, u128, u128))
    requires
        incidence_lists(lists@, edges@, old(seen)@.len()),
        edges_fit(edges@, rows, old(seen)@.len()),
        start < old(seen)@.len(),
    ensures
        (Growth {
            component: r.0@,
            rows: r.1 as nat,
            incidences: r.2 as nat,
            seen: final(seen)@,
        }) == component_of(edges@, start, old(seen)@),
        final(seen)@.len() == old(seen)@.len(),
        r.0@.len() > 0,
        forall|k: int| 0 <= k < r.0@.len() ==> #[trigger] r.0@[k] < final(seen)@.len(),
{
    let ghost goal = component_of(edges@, start, seen@);
    let n: usize = seen.len();
    let mut component: Vec<usize> = Vec::new();
    component.push(start);
    seen.set(start, true);
    let (mut reached, mut incidences): (u128, u128) = (0, 0);
    let mut cursor: usize = 0;
    assert(component@ =~= seq![start]);
    while cursor < n && cursor < component.len()
        invariant
            cursor <= n == seen@.len(),
            component@.len() > 0,
            incidence_lists(lists@, edges@, n as nat),
            edges_fit(edges@, rows, n as nat),
            forall|k: int| 0 <= k < component@.len() ==> #[trigger] component@[k] < n,
            reached <= incidences <= cursor * usize::MAX,
            goal == grown(
                edges@,
                (Growth {
                    component: component@,
                    rows: reached as nat,
                    incidences: incidences as nat,
                    seen: seen@,
                }),
                cursor as int,
                (n - cursor) as nat,
            ),
        decreases n - cursor,
    {
        let j: usize = component[cursor];
        assert(component@[cursor as int] < n);
        let list = &lists[j];
        let mut t: usize = list.len();
        proof {
            assert(edges.len() == edges@.len());
            touching_in_range(edges@, j as int, edges@.len());
            assert((cursor + 1) * usize::MAX == cursor * usize::MAX + usize::MAX)
                by (nonlinear_arith);
            assert((cursor + 1) * usize::MAX <= u128::MAX) by (nonlinear_arith)
                requires
                    cursor + 1 <= usize::MAX,
            ;
        }
        let ghost at = Growth {
            component: component@,
            rows: reached as nat,
            incidences: incidences as nat,
            seen: seen@,
        };
        while t > 0
            invariant
                t <= list@.len() <= usize::MAX,
                n == seen@.len(),
                component@.len() > cursor,
                edges_fit(edges@, rows, n as nat),
                list@ == touching(edges@, j as int, edges@.len()),
                forall|t: int| 0 <= t < list@.len() ==> (#[trigger] list@[t]) < edges@.len(),
                forall|k: int| 0 <= k < component@.len() ==> #[trigger] component@[k] < n,
                reached <= incidences,
                incidences == at.incidences + list@.len() - t,
                at.incidences + usize::MAX <= (cursor + 1) * usize::MAX <= u128::MAX,
                around(edges@, list@, j, at, list@.len()) == around(
                    edges@,
                    list@,
                    j,
                    (Growth {
                        component: component@,
                        rows: reached as nat,
                        incidences: incidences as nat,
                        seen: seen@,
                    }),
                    t as nat,
                ),
            decreases t,
        {
            t = t - 1;
            assert(list@[t as int] < edges@.len());
            let e = edges[list[t]];
            assert(edges@[list@[t as int] as int].j < n);
            let other: usize = if e.j == j {
                e.k
            } else {
                e.j
            };
            incidences = incidences + 1;
            if !seen[other] {
                seen.set(other, true);
                component.push(other);
                reached = reached + 1;
            }
        }
        cursor = cursor + 1;
    }
    (component, reached, incidences)
}

fn pick_root(model: &Model, component: &Vec<usize>, reached: u128, incidences: u128, Ghost(seen): Ghost<Seq<bool>>) -> (r:
    Option<usize>)
    requires
        model.wf(),
        component@.len() > 0,
        forall|k: int| 0 <= k < component@.len() ==> #[trigger] component@[k] < model.bounds@.len(),
    ensures
        r == root_of(
            *model,
            (Growth {
                component: component@,
                rows: reached as nat,
                incidences: incidences as nat,
                seen,
            }),
        ),
        r matches Some(root) ==> root < model.bounds@.len(),
{
    if reached < MIN_EDGES as u128 || incidences / 2 != reached {
        return None;
    }
    assert(component@[0] < model.bounds@.len());
    let mut bounded: usize = 0;
    let mut first: usize = component[0];
    let mut longest: usize = component[0];
    let ghost start = Pick { bounded: 0, first: component@[0], longest: component@[0] };
    let mut k: usize = 0;
    while k < component.len()
        invariant
            k <= component@.len(),
            model.wf(),
            forall|k: int|
                0 <= k < component@.len() ==> #[trigger] component@[k] < model.bounds@.len(),
            bounded <= k,
            first < model.bounds@.len(),
            longest < model.bounds@.len(),
            picked(*model, component@, start, 0) == picked(
                *model,
                component@,
                (Pick { bounded: bounded as nat, first, longest }),
                k as int,
            ),
        decreases component@.len() - k,
    {
        let j: usize = component[k];
        assert(component@[k as int] < model.bounds@.len());
        let (here, best): (usize, usize) = (
            model.a.column(j).len(),
            model.a.column(longest).len(),
        );
        if here > best || here == best && j >= longest {
            longest = j;
        }
        if !is_unbounded(model.bounds[j]) {
            if bounded == 0 {
                first = j;
            }
            bounded = bounded + 1;
        }
        k = k + 1;
    }
    if bounded >= 2 {
        None
    } else if bounded == 1 {
        Some(first)
    } else {
        Some(longest)
    }
}

/// A model with its objective, and the variables that were seen.
pub ghost struct Grove {
    pub model: Model,
    pub objective: Objective,
    pub seen: Seq<bool>,
}

impl<
    P: Fn(Real, Real) -> Real,
    T: Fn(Real, Real) -> Real,
    D: Fn(Real, Real) -> Real,
    H: Fn(Real, Real) -> Real,
> Arithmetic<P, T, D, H> {
    /// Walk a tree from its representative. `maps` holds nothing before.
    fn climb(
        &self,
        model: &Model,
        objective: &Objective,
        edges: &Vec<Edge>,
        lists: &Vec<Vec<usize>>,
        root: usize,
        maps: &mut Vec<Option<Affine>>,
    ) -> (r: (Vec<(usize, Option<usize>)>, Vec<DoubletonStep>, bool))
        requires
            self.wf(),
            model.wf(),
            objective.wf(),
            objective.c@.len() == model.bounds@.len(),
            root < model.bounds@.len(),
            incidence_lists(lists@, edges@, model.bounds@.len()),
            edges_fit(edges@, model.rows@.len(), model.bounds@.len()),
            old(maps)@ == Seq::new(model.bounds@.len(), |j: int| None::<Affine>),
        ensures
            ({
                let c = self.tree_walk(edges@, root, model.bounds@.len());
                &&& c.order == r.0@
                &&& c.maps == final(maps)@
                &&& c.steps == branches(r.1@)
                &&& c.valid == r.2
            }),
            final(maps)@.len() == model.bounds@.len(),
            steps_carry(r.1@, *model, *objective),
            chains::steps_fit(r.1@, model.rows@.len(), model.bounds@.len()),
            lifting::steps_within(r.1@, model.bounds@.len(), model.rows@.len()),
            forall|k: int| 0 <= k < r.0@.len() ==> (#[trigger] r.0@[k]).0 < model.bounds@.len(),
            forall|j: int|
                0 <= j < final(maps)@.len() && #[trigger] final(maps)@[j] is Some ==> climbs(
                    r.0@,
                    j,
                ),
    {
        let n: usize = model.bounds.len();
        let ghost goal = self.tree_walk(edges@, root, n as nat);
        let mut order: Vec<(usize, Option<usize>)> = Vec::new();
        let mut steps: Vec<DoubletonStep> = Vec::new();
        let mut valid = true;
        order.push((root, None));
        maps.set(root, Some((zero(), one())));
        proof {
            assert(order@ =~= seq![(root, None)]);
            assert(branches(steps@) =~= Seq::<Branch>::empty());
            assert(order@[0].0 == root);
        }
        let mut cursor: usize = 0;
        while cursor < n && cursor < order.len() && valid
            invariant
                cursor <= n == model.bounds@.len(),
                self.wf(),
                model.wf(),
                objective.wf(),
                objective.c@.len() == model.bounds@.len(),
                incidence_lists(lists@, edges@, n as nat),
                edges_fit(edges@, model.rows@.len(), n as nat),
                maps@.len() == n,
                steps_carry(steps@, *model, *objective),
                chains::steps_fit(steps@, model.rows@.len(), n as nat),
                lifting::steps_within(steps@, n as nat, model.rows@.len()),
                forall|k: int| 0 <= k < order@.len() ==> (#[trigger] order@[k]).0 < n,
                forall|j: int|
                    0 <= j < n && #[trigger] maps@[j] is Some ==> climbs(order@, j),
                goal == self.climbed(
                    edges@,
                    (Climb { order: order@, maps: maps@, steps: branches(steps@), valid }),
                    cursor as int,
                    (n - cursor) as nat,
                ),
            decreases n - cursor,
        {
            let (parent, from): (usize, Option<usize>) = order[cursor];
            assert(order@[cursor as int].0 < n);
            let map = match maps[parent] {
                Some(map) => map,
                None => (zero(), zero()),
            };
            let list = &lists[parent];
            let mut t: usize = list.len();
            proof {
                assert(edges.len() == edges@.len());
                touching_in_range(edges@, parent as int, edges@.len());
            }
            let ghost at = Climb { order: order@, maps: maps@, steps: branches(steps@), valid };
            while t > 0 && valid
                invariant
                    t <= list@.len(),
                    n == model.bounds@.len(),
                    self.wf(),
                    model.wf(),
                    objective.wf(),
                    objective.c@.len() == n,
                    edges_fit(edges@, model.rows@.len(), n as nat),
                    maps@.len() == n,
                    order@.len() > cursor,
                    list@ == touching(edges@, parent as int, edges@.len()),
                    forall|t: int| 0 <= t < list@.len() ==> (#[trigger] list@[t]) < edges@.len(),
                    steps_carry(steps@, *model, *objective),
                    chains::steps_fit(steps@, model.rows@.len(), n as nat),
                    lifting::steps_within(steps@, n as nat, model.rows@.len()),
                    parent < n,
                    forall|k: int| 0 <= k < order@.len() ==> (#[trigger] order@[k]).0 < n,
                    forall|j: int|
                        0 <= j < n && #[trigger] maps@[j] is Some ==> climbs(order@, j),
                    self.children(edges@, list@, parent, from, map, at, list@.len())
                        == self.children(
                        edges@,
                        list@,
                        parent,
                        from,
                        map,
                        (Climb { order: order@, maps: maps@, steps: branches(steps@), valid }),
                        t as nat,
                    ),
                decreases t,
            {
                t = t - 1;
                assert(list@[t as int] < edges@.len());
                let number: usize = list[t];
                let skip = match from {
                    Some(f) => f == number,
                    None => false,
                };
                if skip {
                    continue;
                }
                let e = edges[number];
                assert(edges@[number as int].j < n);
                let (column, pivot, other): (usize, Real, Real) = if e.j == parent {
                    (e.k, e.b, e.a)
                } else {
                    (e.j, e.a, e.b)
                };
                let ratio = self.quotient_of(other.neg(), pivot);
                let offset = self.sum_of(
                    self.quotient_of(e.rhs, pivot),
                    self.product_of(ratio, map.0),
                );
                let slope = self.product_of(ratio, map.1);
                if !offset.is_finite() || !slope.is_finite() {
                    valid = false;
                    continue;
                }
                let ghost (before, listed, known) = (steps@, order@, maps@);
                maps.set(column, Some((offset, slope)));
                order.push((column, Some(number)));
                let entries = model.column_entries(column);
                steps.push(
                    DoubletonStep {
                        column,
                        parent,
                        row: e.row,
                        pivot,
                        other,
                        rhs: e.rhs,
                        objective: objective.c[column],
                        entries: list_outside(&entries, e.row, Ghost(model.rows@.len())),
                    },
                );
                proof {
                    let last = steps@[before.len() as int];
                    assert(branches(steps@) =~= branches(before).push(branch_of(last)));
                    assert forall|j: int| 0 <= j < n && #[trigger] maps@[j] is Some implies climbs(
                        order@,
                        j,
                    ) by {
                        if j == column {
                            assert(order@[listed.len() as int].0 == j);
                        } else {
                            assert(known[j] is Some);
                            let k = choose|k: int|
                                0 <= k < listed.len() && (#[trigger] listed[k]).0 == j;
                            assert(order@[k].0 == j);
                        }
                    }
                }
            }
            cursor = cursor + 1;
        }
        (order, steps, valid)
    }

    /// What becomes of the component of one edge.
    pub open spec fn tree_turn<E: Fn() -> bool>(
        &self,
        before: Grove,
        after: Grove,
        edges: Seq<Edge>,
        e: int,
        limit: nat,
        found: Option<Seq<DoubletonStep>>,
        expired: E,
    ) -> bool {
        let start = edges[e].j;
        let g = component_of(edges, start, before.seen);
        let unchanged = after.model == before.model && after.objective == before.objective;
        if before.seen[start as int] {
            after == before && found is None
        } else {
            &&& after.seen == g.seen
            &&& match root_of(before.model, g) {
                None => unchanged && found is None,
                Some(root) => {
                    let c = self.tree_walk(edges, root, before.seen.len());
                    let maps = c.maps.update(root as int, None);
                    match found {
                        Some(steps) => {
                            &&& c.valid
                            &&& branches(steps) == c.steps
                            &&& steps_carry(steps, before.model, before.objective)
                            &&& self.tree_planned(
                                before.model,
                                before.objective,
                                root,
                                steps,
                                maps,
                                limit,
                            ) matches Some(plan) && chains::tree_applied(
                                before.model,
                                before.objective,
                                after.model,
                                after.objective,
                                root,
                                steps,
                                plan,
                            )
                        },
                        None => unchanged && (c.valid ==> call_ensures(expired, (), true)
                            || exists|steps: Seq<DoubletonStep>|
                            {
                                &&& branches(steps) == c.steps
                                &&& steps_carry(steps, before.model, before.objective)
                                &&& (#[trigger] self.tree_planned(
                                    before.model,
                                    before.objective,
                                    root,
                                    steps,
                                    maps,
                                    limit,
                                ) matches Some(plan) ==> chains::tree_overflows(
                                    before.model,
                                    plan,
                                ))
                            }),
                    }
                },
            }
        }
    }

    /// Eliminate the component of an edge, if it is a tree that can go.
    fn take_tree<E: Fn() -> bool>(
        &self,
        model: &mut Model,
        objective: &mut Objective,
        edges: &Vec<Edge>,
        lists: &Vec<Vec<usize>>,
        e: usize,
        seen: &mut Vec<bool>,
        maps: &mut Vec<Option<Affine>>,
        limit: usize,
        expired: &E,
    ) -> (done: bool)
        requires
            self.wf(),
            old(model).wf(),
            old(objective).wf(),
            old(objective).c@.len() == old(model).bounds@.len(),
            old(seen)@.len() == old(model).bounds@.len(),
            e < edges@.len(),
            incidence_lists(lists@, edges@, old(model).bounds@.len()),
            edges_fit(edges@, old(model).rows@.len(), old(model).bounds@.len()),
            old(maps)@ == Seq::new(old(model).bounds@.len(), |j: int| None::<Affine>),
            call_requires(*expired, ()),
        ensures
            final(model).wf(),
            final(objective).wf(),
            final(objective).c@.len() == final(model).bounds@.len(),
            final(model).bounds@ == old(model).bounds@,
            final(model).rows@.len() == old(model).rows@.len(),
            final(seen)@.len() == old(seen)@.len(),
            final(maps)@ == old(maps)@,
            self.tree_turn(
                (Grove { model: *old(model), objective: *old(objective), seen: old(seen)@ }),
                (Grove { model: *final(model), objective: *final(objective), seen: final(seen)@ }),
                edges@,
                e as int,
                limit as nat,
                chain_noted(done, final(model).tape@),
                *expired,
            ),
            done ==> (chain_noted(done, final(model).tape@) matches Some(steps)
                && chains::chain_added(old(model).tape@, final(model).tape@, steps)),
            !done ==> final(model).tape@ == old(model).tape@,
    {
        let start: usize = edges[e].j;
        assert(edges@[e as int].j < seen@.len());
        if seen[start] {
            return false;
        }
        let ghost (m, o) = (*model, *objective);
        let ghost blank = maps@;
        let (component, reached, incidences): (Vec<usize>, u128, u128) = grow(
            edges,
            lists,
            start,
            seen,
            Ghost(model.rows@.len()),
        );
        let root: usize = match pick_root(model, &component, reached, incidences, Ghost(seen@)) {
            Some(root) => root,
            None => {
                return false;
            },
        };
        let (order, steps, valid): (Vec<(usize, Option<usize>)>, Vec<DoubletonStep>, bool) =
            self.climb(model, objective, edges, lists, root, maps);
        maps.set(root, None);
        let ghost used = maps@;
        let done = valid && self.commit_doubleton_chain(
            model,
            objective,
            root,
            steps,
            maps,
            limit,
            expired,
        );
        let mut k: usize = 0;
        while k < order.len()
            invariant
                k <= order@.len(),
                maps@.len() == blank.len() == used.len(),
                forall|k: int| 0 <= k < order@.len() ==> (#[trigger] order@[k]).0 < blank.len(),
                forall|j: int|
                    0 <= j < maps@.len() && #[trigger] maps@[j] is Some ==> used[j] is Some && (
                    forall|i: int| 0 <= i < k ==> (#[trigger] order@[i]).0 != j),
            decreases order@.len() - k,
        {
            assert(order@[k as int].0 < blank.len());
            maps.set(order[k].0, None);
            k = k + 1;
        }
        proof {
            assert forall|j: int| 0 <= j < maps@.len() implies #[trigger] maps@[j] is None by {
                if maps@[j] is Some {
                    assert(used[j] is Some);
                    assert(climbs(order@, j));
                    let i = choose|i: int| 0 <= i < order@.len() && (#[trigger] order@[i]).0 == j;
                    assert(order@[i].0 != j);
                }
            }
            assert(maps@ =~= blank);
        }
        done
    }

    /// When a search is worthwhile: enough rows to look at, no curvature, no cones, and no bounds
    /// that still wait in rows.
    pub open spec fn worth_trees(model: Model, objective: Objective, round: Seq<usize>) -> bool {
        &&& round.len() >= MIN_EDGES
        &&& round.len() * 16 >= model.alive@.len()
        &&& objective.p@.dom().len() == 0
        &&& model.cones@.len() == 0
        &&& model.queues.singleton_rows@.len() == 0
    }

    /// The turns of a pass over the edges.
    pub open spec fn tree_pass<E: Fn() -> bool>(
        &self,
        groves: Seq<Grove>,
        found: Seq<Option<Seq<DoubletonStep>>>,
        edges: Seq<Edge>,
        limit: nat,
        expired: E,
    ) -> bool {
        &&& groves.len() == found.len() + 1
        &&& found.len() <= edges.len()
        &&& forall|e: int|
            0 <= e < found.len() ==> #[trigger] self.tree_turn_at(
                groves,
                found,
                edges,
                e,
                limit,
                expired,
            )
    }

    pub open spec fn tree_turn_at<E: Fn() -> bool>(
        &self,
        groves: Seq<Grove>,
        found: Seq<Option<Seq<DoubletonStep>>>,
        edges: Seq<Edge>,
        e: int,
        limit: nat,
        expired: E,
    ) -> bool {
        self.tree_turn(groves[e], groves[e + 1], edges, e, limit, found[e], expired)
    }

    /// Eliminate the trees among the listed rows. The tape takes the steps of each,
    /// in the order in which the trees went, and their number is returned.
    pub fn batch_doubleton_chains<E: Fn() -> bool>(
        &self,
        model: &mut Model,
        objective: &mut Objective,
        round: &Vec<usize>,
        limit: usize,
        expired: &E,
    ) -> (trees: usize)
        requires
            self.wf(),
            old(model).wf(),
            old(objective).wf(),
            old(objective).c@.len() == old(model).bounds@.len(),
            forall|k: int| 0 <= k < round@.len() ==> #[trigger] round@[k] < old(model).rows@.len(),
            call_requires(*expired, ()),
        ensures
            final(model).wf(),
            final(objective).wf(),
            final(objective).c@.len() == final(model).bounds@.len(),
            ({
                let edges = edges_of(*old(model), round@, Seq::empty(), 0);
                let idle = !Self::worth_trees(*old(model), *old(objective), round@) || edges.len()
                    < MIN_EDGES;
                &&& idle ==> trees == 0 && *final(model) == *old(model) && *final(objective)
                    == *old(objective)
                &&& !call_ensures(*expired, (), false) ==> trees == 0 && *final(model)
                    == *old(model) && *final(objective) == *old(objective)
                &&& exists|groves: Seq<Grove>, found: Seq<Option<Seq<DoubletonStep>>>|
                    {
                        &&& #[trigger] self.tree_pass(groves, found, edges, limit as nat, *expired)
                        &&& idle || found.len() == edges.len() || call_ensures(*expired, (), true)
                        &&& groves[0] == (Grove {
                            model: *old(model),
                            objective: *old(objective),
                            seen: Seq::new(old(model).bounds@.len(), |j: int| false),
                        })
                        &&& groves.last().model == *final(model)
                        &&& groves.last().objective == *final(objective)
                        &&& trees == trees_found(found).len()
                        &&& chains_added(old(model).tape@, final(model).tape@, trees_found(found))
                    }
            }),
    {
        let mut trees: usize = 0;
        let ghost all = edges_of(*model, round@, Seq::empty(), 0);
        proof {
            let groves: Seq<Grove> = seq![
                Grove {
                    model: *model,
                    objective: *objective,
                    seen: Seq::new(model.bounds@.len(), |j: int| false),
                },
            ];
            let found: Seq<Option<Seq<DoubletonStep>>> = Seq::empty();
            assert(model.tape@.take(model.tape@.len() as int) =~= model.tape@);
            assert(self.tree_pass(groves, found, all, limit as nat, *expired));
        }
        if round.len() < MIN_EDGES || (round.len() as u128) * 16 < model.alive.len() as u128
            || objective.p.nnz() != 0 || model.cones.len() != 0
            || !model.queues.singleton_rows.is_empty() {
            return trees;
        }
        let edges = match find_edges(model, round, expired) {
            Some(edges) => edges,
            None => {
                return trees;
            },
        };
        if edges.len() < MIN_EDGES {
            return trees;
        }
        let ghost (m, o) = (*model, *objective);
        let n: usize = model.bounds.len();
        let lists = list_incidences(&edges, n, Ghost(model.rows@.len()));
        let mut seen: Vec<bool> = vec![false; n];
        let mut maps: Vec<Option<Affine>> = vec![None; n];
        let ghost blank = Seq::new(n as nat, |j: int| None::<Affine>);
        assert(maps@ =~= blank);
        let ghost mut groves: Seq<Grove> = seq![
            Grove { model: m, objective: o, seen: Seq::new(n as nat, |j: int| false) },
        ];
        let ghost mut found: Seq<Option<Seq<DoubletonStep>>> = Seq::empty();
        assert(seen@ =~= groves[0].seen);
        assert(m.tape@.take(m.tape@.len() as int) =~= m.tape@);
        let mut e: usize = 0;
        while e < edges.len()
            invariant
                e <= edges@.len(),
                self.wf(),
                m == *old(model),
                o == *old(objective),
                n == m.bounds@.len(),
                Self::worth_trees(m, o, round@),
                edges@ == edges_of(m, round@, Seq::empty(), 0),
                edges@.len() >= MIN_EDGES,
                model.wf(),
                objective.wf(),
                objective.c@.len() == model.bounds@.len(),
                model.bounds@ == m.bounds@,
                model.rows@.len() == m.rows@.len(),
                seen@.len() == n,
                blank == Seq::new(n as nat, |j: int| None::<Affine>),
                maps@ == blank,
                incidence_lists(lists@, edges@, n as nat),
                edges_fit(edges@, m.rows@.len(), n as nat),
                call_requires(*expired, ()),
                found.len() == e,
                e > 0 ==> call_ensures(*expired, (), false),
                e == 0 ==> *model == m && *objective == o && trees == 0 && seen@
                    == Seq::new(n as nat, |j: int| false),
                self.tree_pass(groves, found, edges@, limit as nat, *expired),
                groves[0] == (Grove {
                    model: m,
                    objective: o,
                    seen: Seq::new(n as nat, |j: int| false),
                }),
                groves.last() == (Grove { model: *model, objective: *objective, seen: seen@ }),
                trees == trees_found(found).len(),
                trees <= e,
                chains_added(m.tape@, model.tape@, trees_found(found)),
            decreases edges@.len() - e,
        {
            proof {
                assert(edges@[e as int].j < n);
            }
            if !seen[edges[e].j] && expired() {
                return trees;
            }
            let ghost noted = model.tape@;
            assert(chains_added(m.tape@, noted, trees_found(found)));
            let next = self.take_tree(
                model,
                objective,
                &edges,
                &lists,
                e,
                &mut seen,
                &mut maps,
                limit,
                expired,
            );
            let ghost answer = chain_noted(next, model.tape@);
            proof {
                let more = found.push(answer);
                let later = groves.push(
                    Grove { model: *model, objective: *objective, seen: seen@ },
                );
                assert(more.drop_last() =~= found);
                assert forall|i: int| 0 <= i < more.len() implies #[trigger] self.tree_turn_at(
                    later,
                    more,
                    edges@,
                    i,
                    limit as nat,
                    *expired,
                ) by {
                    if i < found.len() {
                        assert(self.tree_turn_at(
                            groves,
                            found,
                            edges@,
                            i,
                            limit as nat,
                            *expired,
                        ));
                        assert(later[i] == groves[i] && later[i + 1] == groves[i + 1] && more[i]
                            == found[i]);
                    } else {
                        assert(later[i] == groves.last());
                    }
                }
                assert(groves.last() == groves[e as int]);
                if next {
                    let steps = answer->Some_0;
                    assert(chains::chain_added(noted, model.tape@, steps));
                    assert(trees_found(more) == trees_found(found).push(steps));
                    assert(model.tape@.take(m.tape@.len() as int) =~= noted.take(
                        m.tape@.len() as int,
                    ));
                    assert forall|t: int| 0 <= t < trees_found(more).len() implies chains::is_chain(
                        model.tape@[m.tape@.len() + t],
                        #[trigger] trees_found(more)[t],
                    ) by {
                        if t < trees_found(found).len() {
                            assert(trees_found(more)[t] == trees_found(found)[t]);
                            assert(model.tape@.drop_last()[m.tape@.len() + t]
                                == model.tape@[m.tape@.len() + t]);
                        }
                    }
                    assert(model.tape@.len() == m.tape@.len() + trees_found(more).len());
                    assert(model.tape@.take(m.tape@.len() as int) =~= m.tape@);
                    assert(chains_added(m.tape@, model.tape@, trees_found(more)));
                } else {
                    assert(answer is None);
                    assert(trees_found(more) == trees_found(found));
                    assert(model.tape@ == noted);
                    assert(chains_added(m.tape@, model.tape@, trees_found(more)));
                }
                found = more;
                groves = later;
            }
            if next {
                trees = trees + 1;
            }
            e = e + 1;
        }
        trees
    }
}

/// The tree whose record ends the tape, if one went.
pub open spec fn chain_noted(done: bool, tape: Seq<Rule>) -> Option<Seq<DoubletonStep>> {
    if done {
        match tape.last() {
            Rule::DoubletonChain { steps } => Some(steps@),
            _ => None,
        }
    } else {
        None
    }
}

/// A tape with the records of a list of trees at its end.
pub open spec fn chains_added(
    before: Seq<Rule>,
    after: Seq<Rule>,
    trees: Seq<Seq<DoubletonStep>>,
) -> bool {
    &&& after.len() == before.len() + trees.len()
    &&& after.take(before.len() as int) == before
    &&& forall|t: int|
        0 <= t < trees.len() ==> chains::is_chain(after[before.len() + t], #[trigger] trees[t])
}

pub open spec fn trees_found(found: Seq<Option<Seq<DoubletonStep>>>) -> Seq<Seq<DoubletonStep>>
    decreases found.len(),
{
    if found.len() == 0 {
        Seq::empty()
    } else {
        match found.last() {
            Some(steps) => trees_found(found.drop_last()).push(steps),
            None => trees_found(found.drop_last()),
        }
    }
}

} // verus!
