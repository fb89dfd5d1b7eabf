//! Trees of two-variable equalities, eliminated in one step.
//!
//! Every variable of a tree is an affine function of one representative. All
//! rows that mention the tree are rebuilt once, and the rows of the tree go.

use crate::arithmetic::Arithmetic;
use crate::batch::{self, RowUpdate};
use crate::bounds::RowDomain;
use crate::eliminate::{self, NewRow, REMAINDER};
use crate::linked::{self, Entries, NONE};
use crate::listing;
use crate::model::{self, Model};
use crate::number::{zero, Real};
use crate::objective::Objective;
use crate::shift;
use crate::lifting;
pub use crate::tape::DoubletonStep;
use crate::tape::Rule;
use vstd::prelude::*;

verus! {

/// A variable as `offset + slope * representative`.
pub type Affine = (Real, Real);

/// The indices of the steps are those of the model.
pub open spec fn steps_fit(steps: Seq<DoubletonStep>, rows: nat, columns: nat) -> bool {
    forall|s: int|
        0 <= s < steps.len() ==> {
            &&& (#[trigger] steps[s]).row < rows
            &&& steps[s].column < columns
            &&& model::in_range(steps[s].entries@, rows)
        }
}

/// Row `i` is one of the equalities of the tree.
pub open spec fn in_tree(steps: Seq<DoubletonStep>, i: int) -> bool {
    exists|s: int| 0 <= s < steps.len() && (#[trigger] steps[s]).row == i
}

pub open spec fn step_meets(step: DoubletonStep, i: int) -> bool {
    exists|e: int| 0 <= e < step.entries@.len() && (#[trigger] step.entries@[e]).0 == i
}

/// Row `i` has a coefficient of a variable that goes.
pub open spec fn met(steps: Seq<DoubletonStep>, i: int) -> bool {
    exists|s: int| 0 <= s < steps.len() && step_meets(#[trigger] steps[s], i)
}

/// A row while its variables are replaced: the coefficient of the
/// representative, what moves into the sides, and the other entries.
pub ghost struct Folded {
    pub value: Real,
    pub shift: Real,
    pub entries: Seq<(usize, Real)>,
}

/// The rows of the tree from row `i` on, emptied.
pub open spec fn tree_deleted(steps: Seq<DoubletonStep>, list: Seq<NewRow>, rows: nat, i: int) -> Seq<
    NewRow,
>
    decreases rows - i,
{
    if i >= rows {
        list
    } else if in_tree(steps, i) {
        tree_deleted(
            steps,
            list.push((i as usize, Seq::empty(), RowDomain::Deleted)),
            rows,
            i + 1,
        )
    } else {
        tree_deleted(steps, list, rows, i + 1)
    }
}

/// The variables of the steps are gone.
pub open spec fn columns_gone(alive: Seq<bool>, steps: Seq<DoubletonStep>, n: nat) -> Seq<bool>
    decreases n,
{
    if n == 0 {
        alive
    } else {
        columns_gone(alive, steps, (n - 1) as nat).update(steps[n - 1].column as int, false)
    }
}

pub open spec fn costs_gone(c: Seq<Real>, steps: Seq<DoubletonStep>, n: nat) -> Seq<Real>
    decreases n,
{
    if n == 0 {
        c
    } else {
        costs_gone(c, steps, (n - 1) as nat).update(steps[n - 1].column as int, zero())
    }
}

/// What a tree leaves behind.
pub ghost struct TreePlan {
    pub rows: Seq<NewRow>,
    pub cost: Real,
    pub constant: Real,
}

impl<
    P: Fn(Real, Real) -> Real,
    T: Fn(Real, Real) -> Real,
    D: Fn(Real, Real) -> Real,
    H: Fn(Real, Real) -> Real,
> Arithmetic<P, T, D, H> {
    /// The variables of a row replaced, from place `k` of its entries on. A sum
    /// that is lost in rounding refuses the whole row.
    pub open spec fn folded(
        &self,
        entries: Seq<(usize, Real)>,
        maps: Seq<Option<Affine>>,
        root: usize,
        f: Folded,
        k: int,
    ) -> Option<Folded>
        decreases entries.len() - k,
    {
        if k >= entries.len() {
            Some(f)
        } else {
            let (j, a) = entries[k];
            match maps[j as int] {
                Some((offset, slope)) => {
                    let change = self.product(a, slope);
                    let value = self.sum(f.value, change);
                    let shift = self.sum(f.shift, self.product(a, offset));
                    if self.wiped(value, f.value, change, Real { bits: REMAINDER })
                        || !shift.finite() {
                        None
                    } else {
                        self.folded(
                            entries,
                            maps,
                            root,
                            Folded { value, shift, entries: f.entries },
                            k + 1,
                        )
                    }
                },
                None => self.folded(
                    entries,
                    maps,
                    root,
                    Folded {
                        entries: if j == root {
                            f.entries
                        } else {
                            f.entries.push((j, a))
                        },
                        ..f
                    },
                    k + 1,
                ),
            }
        }
    }

    /// A row with the tree replaced, and whether the representative is new in it.
    pub open spec fn row_folded(
        &self,
        model: Model,
        maps: Seq<Option<Affine>>,
        root: usize,
        i: int,
    ) -> Option<(NewRow, bool)> {
        let held = linked::value_at(model.a@, i, root as int);
        match self.folded(
            listing::line(model.a@, false, i),
            maps,
            root,
            Folded { value: held, shift: zero(), entries: Seq::empty() },
            0,
        ) {
            None => None,
            Some(f) => match self.domain_shifted(model.rows@[i], f.shift) {
                None => None,
                Some(domain) => Some(
                    (
                        (i as usize, shift::with_value(f.entries, root, f.value), domain),
                        held.zero() && !f.value.zero(),
                    ),
                ),
            },
        }
    }

    /// The rows outside the tree that mention it, from row `i` on; nothing where
    /// the representative is new in more rows than `limit`.
    pub open spec fn rows_folded(
        &self,
        model: Model,
        steps: Seq<DoubletonStep>,
        maps: Seq<Option<Affine>>,
        root: usize,
        limit: nat,
        fill: nat,
        list: Seq<NewRow>,
        i: int,
    ) -> Option<Seq<NewRow>>
        decreases model.rows@.len() - i,
    {
        if i >= model.rows@.len() {
            Some(list)
        } else if !met(steps, i) || in_tree(steps, i) {
            self.rows_folded(model, steps, maps, root, limit, fill, list, i + 1)
        } else {
            match self.row_folded(model, maps, root, i) {
                None => None,
                Some((row, new)) => {
                    let filled = fill + if new {
                        1nat
                    } else {
                        0
                    };
                    if filled > limit {
                        None
                    } else {
                        self.rows_folded(
                            model,
                            steps,
                            maps,
                            root,
                            limit,
                            filled,
                            list.push(row),
                            i + 1,
                        )
                    }
                },
            }
        }
    }

    /// The cost of the representative and the constant, from step `k` on.
    pub open spec fn costs_folded(
        &self,
        steps: Seq<DoubletonStep>,
        maps: Seq<Option<Affine>>,
        cost: Real,
        constant: Real,
        k: int,
    ) -> Option<(Real, Real)>
        decreases steps.len() - k,
    {
        if k >= steps.len() {
            Some((cost, constant))
        } else {
            let (offset, slope) = match maps[steps[k].column as int] {
                Some(map) => map,
                None => (zero(), zero()),
            };
            let next = self.sum(cost, self.product(steps[k].objective, slope));
            let rest = self.sum(constant, self.product(steps[k].objective, offset));
            if next.finite() && rest.finite() {
                self.costs_folded(steps, maps, next, rest, k + 1)
            } else {
                None
            }
        }
    }

    /// The elimination of a tree.
    pub open spec fn tree_planned(
        &self,
        model: Model,
        objective: Objective,
        root: usize,
        steps: Seq<DoubletonStep>,
        maps: Seq<Option<Affine>>,
        limit: nat,
    ) -> Option<TreePlan> {
        match (
            self.rows_folded(model, steps, maps, root, limit, 0, Seq::empty(), 0),
            self.costs_folded(steps, maps, objective.c@[root as int], objective.constant, 0),
        ) {
            (Some(list), Some((cost, constant))) => Some(
                TreePlan {
                    rows: tree_deleted(steps, list, model.rows@.len(), 0),
                    cost,
                    constant,
                },
            ),
            _ => None,
        }
    }

    fn fold_row(
        &self,
        model: &Model,
        maps: &Vec<Option<Affine>>,
        root: usize,
        i: usize,
    ) -> (r: Option<(Entries, RowDomain, bool)>)
        requires
            self.wf(),
            model.wf(),
            maps@.len() == model.bounds@.len(),
            root < model.bounds@.len(),
            i < model.rows@.len(),
        ensures
            match r {
                Some((entries, domain, new)) => {
                    &&& self.row_folded(*model, maps@, root, i as int) == Some(
                        ((i, entries@, domain), new),
                    )
                    &&& linked::sorted_entries(entries@, model.a.column_count())
                    &&& !(domain is Deleted)
                    &&& domain matches RowDomain::Cone { block, .. } ==> block < usize::MAX
                },
                None => self.row_folded(*model, maps@, root, i as int) is None,
            },
    {
        let entries = model.row_entries(i);
        let held = model.a.get(i, root);
        let mut value = held;
        let mut moved = zero();
        let mut kept: Entries = Vec::new();
        let ghost start = Folded { value: held, shift: zero(), entries: Seq::empty() };
        assert(kept@ =~= start.entries);
        let mut k: usize = 0;
        while k < entries.len()
            invariant
                k <= entries@.len(),
                self.wf(),
                maps@.len() == model.bounds@.len() == model.a.column_count(),
                linked::sorted_entries(entries@, model.a.column_count()),
                entries@ == listing::line(model.a@, false, i as int),
                start == (Folded { value: held, shift: zero(), entries: Seq::empty() }),
                held == linked::value_at(model.a@, i as int, root as int),
                linked::sorted_entries(kept@, model.a.column_count()),
                k > 0 ==> forall|a: int|
                    0 <= a < kept@.len() ==> (#[trigger] kept@[a]).0 <= entries@[k - 1].0,
                k == 0 ==> kept@.len() == 0,
                self.folded(entries@, maps@, root, start, 0) == self.folded(
                    entries@,
                    maps@,
                    root,
                    (Folded { value, shift: moved, entries: kept@ }),
                    k as int,
                ),
            decreases entries@.len() - k,
        {
            let (j, a): (usize, Real) = entries[k];
            assert(entries@[k as int].0 < model.a.column_count());
            if k > 0 {
                assert(entries@[k - 1].0 < entries@[k as int].0);
            }
            match maps[j] {
                Some((offset, slope)) => {
                    let change = self.product_of(a, slope);
                    let next = self.sum_of(value, change);
                    if self.wipes(next, value, change, Real::from_bits(REMAINDER)) {
                        return None;
                    }
                    let rest = self.sum_of(moved, self.product_of(a, offset));
                    if !rest.is_finite() {
                        return None;
                    }
                    value = next;
                    moved = rest;
                },
                None => {
                    if j != root {
                        kept.push((j, a));
                    }
                },
            }
            k = k + 1;
        }
        let domain = match self.shifted(model.rows[i], moved) {
            Some(domain) => domain,
            None => {
                return None;
            },
        };
        proof {
            model.a.counts_fit();
        }
        let out = shift::put_value(kept, root, value, Ghost(model.a.column_count()));
        Some((out, domain, held.is_zero() && !value.is_zero()))
    }

    fn mark_rows(steps: &Vec<DoubletonStep>, m: usize) -> (r: (Vec<bool>, Vec<bool>))
        requires
            exists|columns: nat| #[trigger] steps_fit(steps@, m as nat, columns),
        ensures
            r.0@.len() == m,
            r.1@.len() == m,
            forall|i: int| 0 <= i < m ==> #[trigger] r.0@[i] == met(steps@, i),
            forall|i: int| 0 <= i < m ==> #[trigger] r.1@[i] == in_tree(steps@, i),
    {
        let mut marks: Vec<bool> = vec![false; m];
        let mut own: Vec<bool> = vec![false; m];
        let ghost columns = choose|columns: nat| #[trigger] steps_fit(steps@, m as nat, columns);
        let mut s: usize = 0;
        while s < steps.len()
            invariant
                s <= steps@.len(),
                steps_fit(steps@, m as nat, columns),
                marks@.len() == m,
                own@.len() == m,
                forall|i: int|
                    0 <= i < m ==> #[trigger] marks@[i] == met(steps@.take(s as int), i),
                forall|i: int|
                    0 <= i < m ==> #[trigger] own@[i] == in_tree(steps@.take(s as int), i),
            decreases steps@.len() - s,
        {
            let step = &steps[s];
            assert(steps@[s as int].row < m);
            let ghost (before, mine) = (marks@, own@);
            own.set(step.row, true);
            let mut e: usize = 0;
            while e < step.entries.len()
                invariant
                    e <= step.entries@.len(),
                    model::in_range(step.entries@, m as nat),
                    marks@.len() == m == before.len(),
                    forall|i: int|
                        0 <= i < m ==> (#[trigger] marks@[i] <==> before[i] || exists|f: int|
                            0 <= f < e && (#[trigger] step.entries@[f]).0 == i),
                decreases step.entries@.len() - e,
            {
                assert(step.entries@[e as int].0 < m);
                let ghost last = marks@;
                marks.set(step.entries[e].0, true);
                proof {
                    assert forall|i: int| 0 <= i < m implies (#[trigger] marks@[i] <==> before[i]
                        || exists|f: int| 0 <= f < e + 1 && (#[trigger] step.entries@[f]).0 == i)
                        by {
                        assert(last[i] <==> before[i] || exists|f: int|
                            0 <= f < e && (#[trigger] step.entries@[f]).0 == i);
                        if step.entries@[e as int].0 == i {
                        }
                    }
                }
                e = e + 1;
            }
            proof {
                let (old_steps, new_steps) = (steps@.take(s as int), steps@.take(s + 1));
                assert(new_steps[s as int] == steps@[s as int]);
                assert forall|i: int| 0 <= i < m implies #[trigger] marks@[i] == met(
                    new_steps,
                    i,
                ) by {
                    assert(before[i] == met(old_steps, i));
                    if met(old_steps, i) {
                        let t = choose|t: int|
                            0 <= t < old_steps.len() && step_meets(#[trigger] old_steps[t], i);
                        assert(step_meets(new_steps[t], i));
                    }
                    if met(new_steps, i) {
                        let t = choose|t: int|
                            0 <= t < new_steps.len() && step_meets(#[trigger] new_steps[t], i);
                        if t < s {
                            assert(step_meets(old_steps[t], i));
                        }
                    }
                    if step_meets(*step, i) {
                        assert(step_meets(new_steps[s as int], i));
                    }
                }
                assert forall|i: int| 0 <= i < m implies #[trigger] own@[i] == in_tree(
                    new_steps,
                    i,
                ) by {
                    assert(mine[i] == in_tree(old_steps, i));
                    if in_tree(old_steps, i) {
                        let t = choose|t: int|
                            0 <= t < old_steps.len() && (#[trigger] old_steps[t]).row == i;
                        assert(new_steps[t].row == i);
                    }
                    if in_tree(new_steps, i) {
                        let t = choose|t: int|
                            0 <= t < new_steps.len() && (#[trigger] new_steps[t]).row == i;
                        if t < s {
                            assert(old_steps[t].row == i);
                        }
                    }
                }
            }
            s = s + 1;
        }
        assert(steps@.take(s as int) =~= steps@);
        (marks, own)
    }

    /// Work out the elimination of a tree.
    fn plan_tree<E: Fn() -> bool>(
        &self,
        model: &Model,
        objective: &Objective,
        root: usize,
        steps: &Vec<DoubletonStep>,
        maps: &Vec<Option<Affine>>,
        limit: usize,
        expired: &E,
    ) -> (r: Option<(Vec<RowUpdate>, Real, Real)>)
        requires
            self.wf(),
            model.wf(),
            objective.wf(),
            objective.c@.len() == model.bounds@.len(),
            root < model.bounds@.len(),
            maps@.len() == model.bounds@.len(),
            steps_fit(steps@, model.rows@.len(), model.bounds@.len()),
            call_requires(*expired, ()),
        ensures
            match r {
                Some((updates, cost, constant)) => {
                    &&& self.tree_planned(
                        *model,
                        *objective,
                        root,
                        steps@,
                        maps@,
                        limit as nat,
                    ) == Some(TreePlan { rows: eliminate::new_rows(updates@), cost, constant })
                    &&& batch::applicable(
                        updates@,
                        model.rows@.len(),
                        model.a.column_count(),
                    )
                },
                None => call_ensures(*expired, (), true) || self.tree_planned(
                    *model,
                    *objective,
                    root,
                    steps@,
                    maps@,
                    limit as nat,
                ) is None,
            },
    {
        let m: usize = model.rows.len();
        assert(steps_fit(steps@, m as nat, model.bounds@.len()));
        let (marks, own): (Vec<bool>, Vec<bool>) = Self::mark_rows(steps, m);
        let mut updates: Vec<RowUpdate> = Vec::new();
        let mut fill: usize = 0;
        let ghost goal = self.rows_folded(
            *model,
            steps@,
            maps@,
            root,
            limit as nat,
            0,
            Seq::empty(),
            0,
        );
        assert(eliminate::new_rows(updates@) =~= Seq::empty());
        let mut i: usize = 0;
        while i < m
            invariant
                i <= m == model.rows@.len(),
                self.wf(),
                model.wf(),
                root < model.bounds@.len(),
                maps@.len() == model.bounds@.len(),
                call_requires(*expired, ()),
                marks@.len() == m,
                own@.len() == m,
                forall|i: int| 0 <= i < m ==> #[trigger] marks@[i] == met(steps@, i),
                forall|i: int| 0 <= i < m ==> #[trigger] own@[i] == in_tree(steps@, i),
                fill <= limit,
                batch::applicable(updates@, m as nat, model.a.column_count()),
                forall|u: int|
                    0 <= u < updates@.len() ==> (#[trigger] updates@[u]).0 < i && !in_tree(
                        steps@,
                        updates@[u].0 as int,
                    ),
                goal == self.rows_folded(
                    *model,
                    steps@,
                    maps@,
                    root,
                    limit as nat,
                    0,
                    Seq::empty(),
                    0,
                ),
                goal == self.rows_folded(
                    *model,
                    steps@,
                    maps@,
                    root,
                    limit as nat,
                    fill as nat,
                    eliminate::new_rows(updates@),
                    i as int,
                ),
            decreases m - i,
        {
            if marks[i] && !own[i] {
                if expired() {
                    return None;
                }
                match self.fold_row(model, maps, root, i) {
                    None => {
                        return None;
                    },
                    Some((entries, domain, new)) => {
                        if new {
                            if fill == limit {
                                return None;
                            }
                            fill = fill + 1;
                        }
                        let ghost before = updates@;
                        updates.push((i, entries, domain));
                        proof {
                            assert(eliminate::new_rows(updates@) =~= eliminate::new_rows(
                                before,
                            ).push((i, entries@, domain)));
                        }
                    },
                }
            }
            i = i + 1;
        }
        let ghost listed = eliminate::new_rows(updates@);
        let mut cost = objective.c[root];
        let mut constant = objective.constant;
        let mut k: usize = 0;
        while k < steps.len()
            invariant
                k <= steps@.len(),
                self.wf(),
                maps@.len() == model.bounds@.len(),
                steps_fit(steps@, model.rows@.len(), model.bounds@.len()),
                self.costs_folded(
                    steps@,
                    maps@,
                    objective.c@[root as int],
                    objective.constant,
                    0,
                ) == self.costs_folded(steps@, maps@, cost, constant, k as int),
            decreases steps@.len() - k,
        {
            let step = &steps[k];
            assert(steps@[k as int].column < model.bounds@.len());
            let (offset, slope): (Real, Real) = match maps[step.column] {
                Some(map) => map,
                None => (zero(), zero()),
            };
            cost = self.sum_of(cost, self.product_of(step.objective, slope));
            constant = self.sum_of(constant, self.product_of(step.objective, offset));
            if !cost.is_finite() || !constant.is_finite() {
                return None;
            }
            k = k + 1;
        }
        if expired() {
            return None;
        }
        let mut i: usize = 0;
        while i < m
            invariant
                i <= m == model.rows@.len(),
                own@.len() == m,
                forall|i: int| 0 <= i < m ==> #[trigger] own@[i] == in_tree(steps@, i),
                batch::applicable(updates@, m as nat, model.a.column_count()),
                forall|u: int|
                    0 <= u < updates@.len() ==> ((#[trigger] updates@[u]).0 < i || !in_tree(
                        steps@,
                        updates@[u].0 as int,
                    )),
                tree_deleted(steps@, listed, m as nat, 0) == tree_deleted(
                    steps@,
                    eliminate::new_rows(updates@),
                    m as nat,
                    i as int,
                ),
            decreases m - i,
        {
            if own[i] {
                let ghost before = updates@;
                let none: Entries = Vec::new();
                updates.push((i, none, RowDomain::Deleted));
                proof {
                    assert(none@ =~= Seq::<(usize, Real)>::empty());
                    assert(eliminate::new_rows(updates@) =~= eliminate::new_rows(before).push(
                        (i, Seq::empty(), RowDomain::Deleted),
                    ));
                }
            }
            i = i + 1;
        }
        Some((updates, cost, constant))
    }

    /// Eliminate a tree: its variables leave the rows and the objective, and its
    /// equalities are deleted. Nothing changes where the plan is refused, the
    /// time is up, or the storage is full.
    pub fn commit_doubleton_chain<E: Fn() -> bool>(
        &self,
        model: &mut Model,
        objective: &mut Objective,
        root: usize,
        steps: Vec<DoubletonStep>,
        maps: &Vec<Option<Affine>>,
        limit: usize,
        expired: &E,
    ) -> (done: bool)
        requires
            self.wf(),
            old(model).wf(),
            old(objective).wf(),
            old(objective).c@.len() == old(model).bounds@.len(),
            root < old(model).bounds@.len(),
            maps@.len() == old(model).bounds@.len(),
            steps_fit(steps@, old(model).rows@.len(), old(model).bounds@.len()),
            lifting::steps_within(steps@, old(model).bounds@.len(), old(model).rows@.len()),
            call_requires(*expired, ()),
        ensures
            final(model).wf(),
            final(objective).wf(),
            final(objective).c@.len() == final(model).bounds@.len(),
            final(model).bounds@ == old(model).bounds@,
            final(model).rows@.len() == old(model).rows@.len(),
            !done ==> *final(model) == *old(model) && *final(objective) == *old(objective),
            ({
                let plan = self.tree_planned(
                    *old(model),
                    *old(objective),
                    root,
                    steps@,
                    maps@,
                    limit as nat,
                );
                &&& done ==> (plan matches Some(plan) && tree_applied(
                    *old(model),
                    *old(objective),
                    *final(model),
                    *final(objective),
                    root,
                    steps@,
                    plan,
                ))
                &&& !done ==> call_ensures(*expired, (), true) || (plan matches Some(plan)
                    ==> tree_overflows(*old(model), plan))
            }),
    {
        let ghost (start, costs) = (*model, *objective);
        let (updates, cost, constant): (Vec<RowUpdate>, Real, Real) = match self.plan_tree(
            model,
            objective,
            root,
            &steps,
            maps,
            limit,
            expired,
        ) {
            Some(plan) => plan,
            None => {
                return false;
            },
        };
        let total: u128 = eliminate::count_entries(&updates);
        proof {
            eliminate::totals_agree(updates@);
            batch::domains_length(model.rows@, updates@, updates@.len());
        }
        assert(updates.len() == updates@.len());
        if total > NONE as u128 || model.a.nnz() as u128 + total > NONE as u128 {
            return false;
        }
        if model.revision as u128 + updates.len() as u128 > usize::MAX as u128 {
            return false;
        }
        let mut s: usize = 0;
        while s < steps.len()
            invariant
                s <= steps@.len(),
                steps_fit(steps@, model.rows@.len(), model.bounds@.len()),
                model.wf(),
                objective.wf(),
                objective.c@.len() == model.bounds@.len(),
                model.a == start.a,
                model.rows == start.rows,
                model.bounds == start.bounds,
                model.tape == start.tape,
                model.revision == start.revision,
                objective.p == costs.p,
                objective.constant == costs.constant,
                model.alive@ == columns_gone(start.alive@, steps@, s as nat),
                objective.c@ == costs_gone(costs.c@, steps@, s as nat),
            decreases steps@.len() - s,
        {
            let j: usize = steps[s].column;
            assert(steps@[s as int].column < model.bounds@.len());
            model.alive.set(j, false);
            objective.c.set(j, zero());
            s = s + 1;
        }
        objective.c.set(root, cost);
        objective.constant = constant;
        let touched = model.replace_rows_batch(&updates);
        let ghost noted = steps@;
        model.tape.push(Rule::DoubletonChain { steps });
        proof {
            assert(model.tape@.drop_last() =~= start.tape@);
            assert(chain_added(start.tape@, model.tape@, noted));
        }
        assert(batch::updated_matrix(model.a@, start.a@, updates@));
        true
    }
}

/// The storage or the counters cannot hold the plan.
pub open spec fn tree_overflows(model: Model, plan: TreePlan) -> bool {
    ||| model.a@.dom().len() + eliminate::entry_total(plan.rows) > NONE
    ||| model.revision + plan.rows.len() > usize::MAX
}

/// The record of a tree.
pub open spec fn is_chain(rule: Rule, steps: Seq<DoubletonStep>) -> bool {
    rule matches Rule::DoubletonChain { steps: noted } && noted@ == steps
}

/// A tape with the record of one more tree.
pub open spec fn chain_added(before: Seq<Rule>, after: Seq<Rule>, steps: Seq<DoubletonStep>) -> bool {
    &&& after.len() == before.len() + 1
    &&& after.drop_last() == before
    &&& is_chain(after.last(), steps)
}

/// The model and the objective without a tree.
pub open spec fn tree_applied(
    before: Model,
    costs: Objective,
    after: Model,
    new_costs: Objective,
    root: usize,
    steps: Seq<DoubletonStep>,
    plan: TreePlan,
) -> bool {
    &&& new_costs.p@ == costs.p@
    &&& new_costs.c@ == costs_gone(costs.c@, steps, steps.len()).update(root as int, plan.cost)
    &&& new_costs.constant == plan.constant
    &&& after.bounds@ == before.bounds@
    &&& after.alive@ == columns_gone(before.alive@, steps, steps.len())
    &&& chain_added(before.tape@, after.tape@, steps)
    &&& exists|updates: Seq<RowUpdate>|
        {
            &&& eliminate::new_rows(updates) == plan.rows
            &&& #[trigger] batch::updated_matrix(after.a@, before.a@, updates)
            &&& after.rows@ == batch::updated_domains(before.rows@, updates, updates.len())
        }
}

} // verus!
