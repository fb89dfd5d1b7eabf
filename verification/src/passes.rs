//! Passes of the column and row rules over their queues.

use crate::arithmetic::Arithmetic;
use crate::bounds::{RowDomain, Side};
use crate::choices::{ColumnChoice, EmptyRow};
use crate::fixing;
use crate::linked;
use crate::model;
use crate::model::Model;
use crate::number::Real;
use crate::objective::Objective;
use crate::tape::Rule;
use vstd::prelude::*;

verus! {

/// A model with its objective.
pub ghost struct Work {
    pub model: Model,
    pub objective: Objective,
}

pub open spec fn work(model: Model, objective: Objective) -> Work {
    Work { model, objective }
}

/// Only queues and caches may differ.
pub open spec fn untouched(before: Work, after: Work) -> bool {
    &&& same_model(before.model, after.model)
    &&& after.objective == before.objective
}

/// Each state follows from the one before by a turn on the item between them.
pub open spec fn walk<S, I>(
    turn: spec_fn(S, S, I) -> bool,
    states: Seq<S>,
    items: Seq<I>,
) -> bool {
    &&& states.len() == items.len() + 1
    &&& forall|k: int| 0 <= k < items.len() ==> #[trigger] turned(turn, states, items, k)
}

pub open spec fn turned<S, I>(
    turn: spec_fn(S, S, I) -> bool,
    states: Seq<S>,
    items: Seq<I>,
    k: int,
) -> bool {
    turn(states[k], states[k + 1], items[k])
}

/// A walk goes on by one turn.
pub proof fn walk_on<S, I>(
    turn: spec_fn(S, S, I) -> bool,
    states: Seq<S>,
    items: Seq<I>,
    next: S,
    item: I,
)
    requires
        walk(turn, states, items),
        turn(states.last(), next, item),
    ensures
        walk(turn, states.push(next), items.push(item)),
        states.push(next).last() == next,
        states.push(next)[0] == states[0],
{
    let later = states.push(next);
    let more = items.push(item);
    assert forall|k: int| 0 <= k < more.len() implies #[trigger] turned(turn, later, more, k) by {
        if k < items.len() {
            assert(turned(turn, states, items, k));
            assert(later[k] == states[k] && later[k + 1] == states[k + 1] && more[k] == items[k]);
        } else {
            assert(later[k] == states.last());
        }
    }
}

/// Only queues and caches may differ.
pub open spec fn same_model(before: Model, after: Model) -> bool {
    &&& after.same_problem(&before)
    &&& after.tape@ == before.tape@
    &&& after.revision == before.revision
}

/// A row left the model without entries.
pub open spec fn row_deleted(before: Model, after: Model, i: usize) -> bool {
    &&& linked::row_replaced(after.a@, before.a@, i as int, Seq::<(usize, Real)>::empty())
    &&& after.rows@ == before.rows@.update(i as int, RowDomain::Deleted)
    &&& after.bounds@ == before.bounds@
    &&& after.alive@ == before.alive@
    &&& after.revision == before.revision + 1
    &&& after.tape@ == before.tape@.push(Rule::DeletedRow(i))
}

/// A variable left together with all its rows.
pub open spec fn unlocked_removed(before: Model, after: Model, column: usize) -> bool {
    &&& forall|i: int, j: int| #[trigger]
        after.a@.contains_key((i, j)) <==> before.a@.contains_key((i, j)) && !before.a@.contains_key(
            (i, column as int),
        )
    &&& forall|i: int, j: int| #[trigger]
        after.a@.contains_key((i, j)) ==> after.a@[(i, j)] == before.a@[(i, j)]
    &&& after.rows@.len() == before.rows@.len()
    &&& forall|i: int|
        0 <= i < after.rows@.len() ==> #[trigger] after.rows@[i] == (if before.a@.contains_key(
            (i, column as int),
        ) {
            RowDomain::Deleted
        } else {
            before.rows@[i]
        })
    &&& after.bounds@ == before.bounds@
    &&& after.alive@ == before.alive@.update(column as int, false)
    &&& after.tape@.len() == before.tape@.len() + 1
    &&& after.tape@.drop_last() == before.tape@
    &&& after.tape@.last() matches Rule::Unlocked { column: c, bounds: b, .. } && c == column && b
        == before.bounds@[column as int]
}

/// A variable that may move one way forever is in linear rows only.
proof fn unlocked_rows(model: Model, j: int)
    requires
        model.wf(),
        0 <= j < model.bounds@.len(),
        model.locks@[j].up == 0 || model.locks@[j].down == 0,
    ensures
        forall|i: int| #[trigger] model.a@.contains_key((i, j)) ==> model.rows@[i] is Linear,
{
    model.a.stored_positions();
    let up = model.locks@[j].up == 0;
    model::locking_is_finite(model.a@, model.rows@, j, up);
    assert forall|i: int| #[trigger]
        model.a@.contains_key((i, j)) implies model.rows@[i] is Linear by {
        let rows = model::locking(model.a@, model.rows@, j, up);
        assert(rows =~= Set::<int>::empty());
        assert(!rows.contains(i));
    }
}

impl<
    P: Fn(Real, Real) -> Real,
    T: Fn(Real, Real) -> Real,
    D: Fn(Real, Real) -> Real,
    H: Fn(Real, Real) -> Real,
> Arithmetic<P, T, D, H> {
    /// A coefficient would not stay finite, or a counter is full.
    pub open spec fn unfixable(&self, w: Work, j: usize, value: Real) -> bool {
        match self.fixing(w.model, w.objective, j, value) {
            None => true,
            Some((_, outline)) => w.model.revision == usize::MAX || fixing::exhausted(
                w.objective,
                outline,
            ),
        }
    }

    /// The variable was fixed, or could not be.
    pub open spec fn fix_turn(&self, w: Work, v: Work, j: usize, value: Real) -> bool {
        ||| self.fixed_to(w.model, w.objective, v.model, v.objective, j, value)
        ||| untouched(w, v) && self.unfixable(w, j, value)
    }

    /// A live variable whose bounds agree takes their value.
    pub open spec fn known_turn(&self, w: Work, v: Work, j: usize) -> bool {
        if j < w.model.bounds@.len() && w.model.alive@[j as int]
            && w.model.bounds@[j as int].is_equality() {
            self.fix_turn(w, v, j, w.model.bounds@[j as int].lower)
        } else {
            untouched(w, v)
        }
    }

    pub open spec fn known_turns(&self) -> spec_fn(Work, Work, usize) -> bool {
        |w: Work, v: Work, j: usize| self.known_turn(w, v, j)
    }

    /// Fix the waiting variables whose bounds agree.
    pub fn fixed_variables(&self, model: &mut Model, objective: &mut Objective)
        requires
            self.wf(),
            old(model).wf(),
            old(objective).wf(),
            old(objective).c@.len() == old(model).bounds@.len(),
        ensures
            self.fixed_variables_done(
                work(*old(model), *old(objective)),
                work(*final(model), *final(objective)),
            ),
    {
        let ghost mut states: Seq<Work> = seq![work(*model, *objective)];
        let ghost mut items: Seq<usize> = Seq::empty();
        while !model.queues.fixed_columns.is_empty()
            invariant
                self.wf(),
                model.wf(),
                objective.wf(),
                objective.c@.len() == model.bounds@.len(),
                walk(self.known_turns(), states, items),
                states[0] == work(*old(model), *old(objective)),
                states.last() == work(*model, *objective),
                items.len() == 0 ==> *model == *old(model),
                items.len() > 0 ==> old(model).queues.fixed_columns@.len() > 0 && items[0] == old(
                    model,
                ).queues.fixed_columns@.last(),
            decreases usize::MAX - model.revision, model.queues.fixed_columns@.len(),
        {
            let ghost w = work(*model, *objective);
            let j: usize = match model.queues.fixed_columns.pop() {
                Some(j) => j,
                None => {
                    return ;
                },
            };
            assert(model.wf());
            if j < model.alive.len() && model.alive[j] && model.bounds[j].equality() {
                let value = model.bounds[j].lower;
                self.fix_variable(model, objective, j, value);
            }
            proof {
                let v = work(*model, *objective);
                assert(self.known_turn(w, v, j));
                walk_on(self.known_turns(), states, items, v, j);
                states = states.push(v);
                items = items.push(j);
            }
        }
    }

    /// What becomes of a column by itself.
    pub open spec fn lone_turn(&self, w: Work, v: Work, j: usize, choice: ColumnChoice) -> bool {
        match choice {
            ColumnChoice::Fix(value) => self.fix_turn(w, v, j, value),
            ColumnChoice::RemoveUnlocked => {
                ||| unlocked_removed(w.model, v.model, j) && v.objective == w.objective
                ||| untouched(w, v) && w.model.revision + w.model.rows@.len() + 1 > usize::MAX
            },
            _ => untouched(w, v),
        }
    }

    pub open spec fn empty_column_turn(&self, w: Work, v: Work, j: usize) -> bool {
        if j < w.model.bounds@.len() {
            self.lone_turn(
                w,
                v,
                j,
                self.empty_column_choice(w.model, w.objective, j as int),
            )
        } else {
            untouched(w, v)
        }
    }

    pub open spec fn empty_column_turns(&self) -> spec_fn(Work, Work, usize) -> bool {
        |w: Work, v: Work, j: usize| self.empty_column_turn(w, v, j)
    }

    /// Fix the waiting variables that no row mentions and no other variable
    /// depends on. A direction in which the objective falls forever ends the
    /// pass.
    pub fn empty_columns(&self, model: &mut Model, objective: &mut Objective) -> (r: Result<
        (),
        (usize, Real),
    >)
        requires
            self.wf(),
            old(model).wf(),
            old(objective).wf(),
            old(objective).c@.len() == old(model).bounds@.len(),
        ensures
            self.empty_columns_done(
                work(*old(model), *old(objective)),
                work(*final(model), *final(objective)),
                r,
            ),
    {
        let ghost mut states: Seq<Work> = seq![work(*model, *objective)];
        let ghost mut items: Seq<usize> = Seq::empty();
        while !model.queues.empty_columns.is_empty()
            invariant
                self.wf(),
                model.wf(),
                objective.wf(),
                objective.c@.len() == model.bounds@.len(),
                walk(self.empty_column_turns(), states, items),
                states[0] == work(*old(model), *old(objective)),
                states.last() == work(*model, *objective),
                items.len() == 0 ==> *model == *old(model),
                items.len() > 0 ==> old(model).queues.empty_columns@.len() > 0 && items[0] == old(
                    model,
                ).queues.empty_columns@.last(),
            decreases usize::MAX - model.revision, model.queues.empty_columns@.len(),
        {
            let ghost w = work(*model, *objective);
            let j: usize = match model.queues.empty_columns.pop() {
                Some(j) => j,
                None => {
                    return Ok(());
                },
            };
            assert(model.wf());
            let mut choice = ColumnChoice::Skip;
            if j < model.alive.len() {
                choice = self.choose_empty_column(model, objective, j);
                assert(choice == self.empty_column_choice(w.model, w.objective, j as int));
                if let ColumnChoice::Fix(value) = choice {
                    self.fix_variable(model, objective, j, value);
                }
            }
            proof {
                let v = work(*model, *objective);
                assert(self.empty_column_turn(w, v, j));
                walk_on(self.empty_column_turns(), states, items, v, j);
                states = states.push(v);
                items = items.push(j);
            }
            if let ColumnChoice::Ray(direction) = choice {
                return Err((j, direction));
            }
        }
        Ok(())
    }

    pub open spec fn dual_fix_turn(&self, w: Work, v: Work, j: usize) -> bool {
        if j < w.model.bounds@.len() {
            self.lone_turn(w, v, j, self.dual_fix_choice(w.model, w.objective, j as int))
        } else {
            untouched(w, v)
        }
    }

    pub open spec fn dual_fix_turns(&self) -> spec_fn(Work, Work, usize) -> bool {
        |w: Work, v: Work, j: usize| self.dual_fix_turn(w, v, j)
    }

    /// One round over the columns whose locks changed: a variable that the
    /// objective and the rows push one way goes to its bound. Columns that this
    /// unlocks wait for the next round.
    pub fn simple_dual_fix(&self, model: &mut Model, objective: &mut Objective) -> (r: Result<
        (),
        (usize, Real),
    >)
        requires
            self.wf(),
            old(model).wf(),
            old(objective).wf(),
            old(objective).c@.len() == old(model).bounds@.len(),
        ensures
            self.simple_dual_fix_done(
                work(*old(model), *old(objective)),
                work(*final(model), *final(objective)),
                r,
            ),
    {
        let ghost waiting = model.queues.unlocked_columns@;
        let round = model.queues.unlocked_columns.take_round();
        assert(model.wf());
        let ghost mut states: Seq<Work> = seq![work(*model, *objective)];
        let ghost mut items: Seq<usize> = Seq::empty();
        assert(items =~= waiting.take(0));
        let mut k: usize = 0;
        while k < round.len()
            invariant
                k <= round@.len(),
                round@ == waiting,
                waiting == old(model).queues.unlocked_columns@,
                self.wf(),
                model.wf(),
                objective.wf(),
                objective.c@.len() == model.bounds@.len(),
                walk(self.dual_fix_turns(), states, items),
                untouched(work(*old(model), *old(objective)), states[0]),
                states.last() == work(*model, *objective),
                items == waiting.take(k as int),
            decreases round@.len() - k,
        {
            let ghost w = work(*model, *objective);
            let j: usize = round[k];
            let mut choice = ColumnChoice::Skip;
            if j < model.alive.len() {
                choice = self.choose_dual_fix(model, objective, j);
                match choice {
                    ColumnChoice::Fix(value) => {
                        self.fix_variable(model, objective, j, value);
                    },
                    ColumnChoice::RemoveUnlocked => {
                        if model.revision as u128 + model.rows.len() as u128 + 1
                            <= usize::MAX as u128 {
                            proof {
                                unlocked_rows(*model, j as int);
                                model.a.stored_count_fits();
                            }
                            model.remove_unlocked(j);
                        }
                    },
                    _ => {},
                }
            }
            k = k + 1;
            proof {
                let v = work(*model, *objective);
                assert(self.dual_fix_turn(w, v, j));
                walk_on(self.dual_fix_turns(), states, items, v, j);
                states = states.push(v);
                items = items.push(j);
                assert(items =~= waiting.take(k as int));
            }
            if let ColumnChoice::Ray(direction) = choice {
                return Err((j, direction));
            }
        }
        assert(waiting.take(k as int) =~= waiting);
        Ok(())
    }

    /// The lower bound is tried first.
    pub open spec fn coupled_turn(&self, w: Work, v: Work, j: usize) -> bool {
        if j < w.model.bounds@.len() {
            let b = w.model.bounds@[j as int];
            let low = self.coupled_belongs(w.model, w.objective, j, Side::Lower);
            let high = self.coupled_belongs(w.model, w.objective, j, Side::Upper);
            ||| low && self.fixed_to(w.model, w.objective, v.model, v.objective, j, b.lower)
            ||| (low ==> self.unfixable(w, j, b.lower)) && if high {
                self.fix_turn(w, v, j, b.upper)
            } else {
                untouched(w, v)
            }
        } else {
            untouched(w, v)
        }
    }

    pub open spec fn coupled_turns(&self) -> spec_fn(Work, Work, usize) -> bool {
        |w: Work, v: Work, j: usize| self.coupled_turn(w, v, j)
    }

    /// Fix coupled variables whose derivative has one sign, column by column.
    pub fn coupled_dual_fix(&self, model: &mut Model, objective: &mut Objective)
        requires
            self.wf(),
            old(model).wf(),
            old(objective).wf(),
            old(objective).c@.len() == old(model).bounds@.len(),
        ensures
            self.coupled_dual_fix_done(
                work(*old(model), *old(objective)),
                work(*final(model), *final(objective)),
            ),
    {
        if objective.p.nnz() == 0 {
            return ;
        }
        let ghost mut states: Seq<Work> = seq![work(*model, *objective)];
        let ghost mut items: Seq<usize> = Seq::empty();
        let columns: usize = model.alive.len();
        let mut j: usize = 0;
        while j < columns
            invariant
                j <= columns,
                columns == old(model).bounds@.len(),
                model.bounds@.len() == columns,
                self.wf(),
                model.wf(),
                objective.wf(),
                objective.c@.len() == model.bounds@.len(),
                walk(self.coupled_turns(), states, items),
                states[0] == work(*old(model), *old(objective)),
                states.last() == work(*model, *objective),
                items.len() == j,
                forall|k: int| 0 <= k < j ==> #[trigger] items[k] == k as usize,
            decreases columns - j,
        {
            let ghost w = work(*model, *objective);
            let b = model.bounds[j];
            let mut done = false;
            if self.coupled_fits(model, objective, j, Side::Lower) {
                done = self.fix_variable(model, objective, j, b.lower);
            }
            if !done && self.coupled_fits(model, objective, j, Side::Upper) {
                self.fix_variable(model, objective, j, b.upper);
            }
            proof {
                let v = work(*model, *objective);
                assert(self.coupled_turn(w, v, j));
                walk_on(self.coupled_turns(), states, items, v, j);
                states = states.push(v);
                items = items.push(j);
            }
            j = j + 1;
        }
        assert(items =~= Seq::new(old(model).bounds@.len(), |j: int| j as usize));
    }

    /// What becomes of a row without entries.
    pub open spec fn empty_row_turn(
        &self,
        before: Model,
        after: Model,
        i: usize,
        feasibility: Real,
    ) -> bool {
        if i < before.rows@.len() && self.empty_row_choice(before, i as int, feasibility)
            is Delete {
            ||| row_deleted(before, after, i)
            ||| same_model(before, after) && before.revision == usize::MAX
        } else {
            same_model(before, after)
        }
    }

    pub open spec fn empty_row_turns(&self, feasibility: Real) -> spec_fn(Model, Model, usize) -> bool {
        |before: Model, after: Model, i: usize| self.empty_row_turn(before, after, i, feasibility)
    }

    /// Delete the waiting rows without entries, or find one that has no feasible
    /// point.
    pub fn empty_rows(&self, model: &mut Model, feasibility: Real) -> (r: Result<
        (),
        (usize, Real),
    >)
        requires
            self.wf(),
            old(model).wf(),
        ensures
            self.empty_rows_done(
                *old(model),
                *final(model),
                feasibility,
                r,
            ),
    {
        let ghost mut states: Seq<Model> = seq![*model];
        let ghost mut items: Seq<usize> = Seq::empty();
        while !model.queues.empty_rows.is_empty()
            invariant
                self.wf(),
                model.wf(),
                model.bounds@.len() == old(model).bounds@.len(),
                walk(self.empty_row_turns(feasibility), states, items),
                states[0] == *old(model),
                states.last() == *model,
                items.len() == 0 ==> *model == *old(model),
                items.len() > 0 ==> old(model).queues.empty_rows@.len() > 0 && items[0] == old(
                    model,
                ).queues.empty_rows@.last(),
            decreases usize::MAX - model.revision, model.queues.empty_rows@.len(),
        {
            let ghost w = *model;
            let i: usize = match model.queues.empty_rows.pop() {
                Some(i) => i,
                None => {
                    return Ok(());
                },
            };
            assert(model.wf());
            let mut choice = EmptyRow::Skip;
            if i < model.rows.len() {
                choice = self.choose_empty_row(model, i, feasibility);
                assert(choice == self.empty_row_choice(w, i as int, feasibility));
                if choice == EmptyRow::Delete && model.revision < usize::MAX {
                    proof {
                        model.a.stored_count_fits();
                    }
                    model.delete_row(i);
                }
            }
            proof {
                assert(self.empty_row_turn(w, *model, i, feasibility));
                walk_on(self.empty_row_turns(feasibility), states, items, *model, i);
                states = states.push(*model);
                items = items.push(i);
            }
            if let EmptyRow::Infeasible(multiplier) = choice {
                return Err((i, multiplier));
            }
        }
        Ok(())
    }
}

impl<
    P: Fn(Real, Real) -> Real,
    T: Fn(Real, Real) -> Real,
    D: Fn(Real, Real) -> Real,
    H: Fn(Real, Real) -> Real,
> Arithmetic<P, T, D, H> {
    /// What a pass over the fixed variables does.
    pub open spec fn fixed_variables_done(
        &self,
        before: Work,
        after: Work,
    ) -> bool {
        &&& after.model.wf()
        &&& after.objective.wf()
        &&& after.objective.c@.len() == after.model.bounds@.len()
        &&& after.model.queues.fixed_columns@.len() == 0
        &&& exists|states: Seq<Work>, items: Seq<usize>|
                {
                    &&& #[trigger] walk(self.known_turns(), states, items)
                    &&& states[0] == before
                    &&& states.last() == after
                    &&& before.model.queues.fixed_columns@.len() > 0 ==> items.len() > 0
                        && items[0] == before.model.queues.fixed_columns@.last()
                }
    }

    /// What a pass over the empty columns does and reports.
    pub open spec fn empty_columns_done(
        &self,
        before: Work,
        after: Work,
        r: Result< (), (usize, Real), >,
    ) -> bool {
        &&& after.model.wf()
        &&& after.objective.wf()
        &&& after.objective.c@.len() == after.model.bounds@.len()
        &&& exists|states: Seq<Work>, items: Seq<usize>|
                {
                    &&& #[trigger] walk(self.empty_column_turns(), states, items)
                    &&& states[0] == before
                    &&& states.last() == after
                    &&& before.model.queues.empty_columns@.len() > 0 ==> items.len() > 0 && items[0]
                        == before.model.queues.empty_columns@.last()
                    &&& match r {
                        Ok(_) => after.model.queues.empty_columns@.len() == 0,
                        Err((j, direction)) => {
                            &&& items.len() > 0
                            &&& j == items.last()
                            &&& j < after.model.bounds@.len()
                            &&& self.empty_column_choice(
                                after.model,
                                after.objective,
                                j as int,
                            ) == ColumnChoice::Ray(direction)
                        },
                    }
                }
    }

    /// What a pass over the unlocked columns does and reports.
    pub open spec fn simple_dual_fix_done(
        &self,
        before: Work,
        after: Work,
        r: Result< (), (usize, Real), >,
    ) -> bool {
        &&& after.model.wf()
        &&& after.objective.wf()
        &&& after.objective.c@.len() == after.model.bounds@.len()
        &&& exists|states: Seq<Work>, items: Seq<usize>|
                {
                    let round = before.model.queues.unlocked_columns@;
                    &&& #[trigger] walk(self.dual_fix_turns(), states, items)
                    &&& untouched(before, states[0])
                    &&& states.last() == after
                    &&& items.len() <= round.len()
                    &&& items == round.take(items.len() as int)
                    &&& match r {
                        Ok(_) => items == round,
                        Err((j, direction)) => {
                            &&& items.len() > 0
                            &&& j == items.last()
                            &&& j < after.model.bounds@.len()
                            &&& self.dual_fix_choice(after.model, after.objective, j as int)
                                == ColumnChoice::Ray(direction)
                        },
                    }
                }
    }

    /// What a pass over the empty rows does and reports.
    pub open spec fn empty_rows_done(
        &self,
        before: Model,
        after: Model,
        feasibility: Real,
        r: Result< (), (usize, Real), >,
    ) -> bool {
        &&& after.wf()
        &&& after.bounds@.len() == before.bounds@.len()
        &&& exists|states: Seq<Model>, items: Seq<usize>|
                {
                    &&& #[trigger] walk(self.empty_row_turns(feasibility), states, items)
                    &&& states[0] == before
                    &&& states.last() == after
                    &&& before.queues.empty_rows@.len() > 0 ==> items.len() > 0 && items[0]
                        == before.queues.empty_rows@.last()
                    &&& match r {
                        Ok(_) => after.queues.empty_rows@.len() == 0,
                        Err((i, multiplier)) => {
                            &&& items.len() > 0
                            &&& i == items.last()
                            &&& i < after.rows@.len()
                            &&& self.empty_row_choice(after, i as int, feasibility)
                                == EmptyRow::Infeasible(multiplier)
                        },
                    }
                }
    }

    /// What a pass over the coupled columns does.
    pub open spec fn coupled_dual_fix_done(
        &self,
        before: Work,
        after: Work,
    ) -> bool {
        &&& after.model.wf()
        &&& after.objective.wf()
        &&& after.objective.c@.len() == after.model.bounds@.len()
        &&& before.objective.p@.dom().len() == 0 ==> after.model == before.model && after.objective
                == before.objective
        &&& before.objective.p@.dom().len() > 0 ==> exists|states: Seq<Work>, items: Seq<usize>|
                {
                    &&& #[trigger] walk(self.coupled_turns(), states, items)
                    &&& states[0] == before
                    &&& states.last() == after
                    &&& items == Seq::new(before.model.bounds@.len(), |j: int| j as usize)
                }
    }
}

} // verus!
