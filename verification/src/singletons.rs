//! Rows and columns with a single entry.

use crate::arithmetic::Arithmetic;
use crate::bounding;
use crate::bounding::BoundLimits;
use crate::bounds::{Bounds, RowDomain, Side};
use crate::choices::SingletonChoice;
use crate::linked;
use crate::listing;
use crate::model::Model;
use crate::number::Real;
use crate::objective::{Failure, Objective};
use crate::passes::{self, Work};
use crate::queues;
use crate::tape::Rule;
use vstd::prelude::*;

verus! {

impl<
    P: Fn(Real, Real) -> Real,
    T: Fn(Real, Real) -> Real,
    D: Fn(Real, Real) -> Real,
    H: Fn(Real, Real) -> Real,
> Arithmetic<P, T, D, H> {
    /// The bounds after a row of one entry `a` of variable `j` is read as an
    /// interval.
    pub open spec fn singleton_narrowed(
        &self,
        bounds: Seq<Bounds>,
        b: Bounds,
        j: usize,
        a: Real,
        limits: BoundLimits,
    ) -> bounding::Narrowed {
        let r = self.scaled_interval(b, a);
        self.narrowed(
            self.narrowed(
                bounding::Narrowed { bounds, count: 0, conflict: None },
                j,
                a,
                Side::Lower,
                Some(r.lower),
                limits,
                false,
            ),
            j,
            a,
            Side::Upper,
            Some(r.upper),
            limits,
            false,
        )
    }

    /// What becomes of a waiting row: the variable of its only entry takes over
    /// its sides, and the row goes where they all arrived.
    pub open spec fn singleton_row_turn(
        &self,
        before: Model,
        after: Model,
        i: usize,
        limits: BoundLimits,
    ) -> bool {
        let entries = listing::line(before.a@, false, i as int);
        if i < before.rows@.len() && before.rows@[i as int] is Linear && entries.len() == 1
            && before.revision + 3 <= usize::MAX {
            let b = before.rows@[i as int]->Linear_0;
            let (j, a) = entries[0];
            let r = self.scaled_interval(b, a);
            let n = self.singleton_narrowed(before.bounds@, b, j, a, limits);
            let covered = r.lower.le(n.bounds[j as int].lower) && n.bounds[j as int].upper.le(
                r.upper,
            );
            &&& after.bounds@ == n.bounds
            &&& after.alive@ == before.alive@
            &&& if n.conflict is None && covered {
                &&& linked::row_replaced(after.a@, before.a@, i as int, Seq::empty())
                &&& after.rows@ == before.rows@.update(i as int, RowDomain::Deleted)
                &&& after.tape@.len() > 0
                &&& after.tape@.last() == Rule::DeletedRow(i)
                &&& bounding::proved_by(before.tape@, after.tape@.drop_last(), i, n.count)
            } else {
                &&& after.a == before.a
                &&& after.rows@ == before.rows@
                &&& bounding::proved_by(before.tape@, after.tape@, i, n.count)
            }
        } else {
            passes::same_model(before, after)
        }
    }

    pub open spec fn singleton_row_turns(&self, limits: BoundLimits) -> spec_fn(
        Model,
        Model,
        usize,
    ) -> bool {
        |before: Model, after: Model, i: usize| self.singleton_row_turn(before, after, i, limits)
    }

    /// The multiplier of a row of one entry that leaves its variable no value.
    pub open spec fn singleton_conflict(
        &self,
        before: Model,
        i: usize,
        limits: BoundLimits,
    ) -> Option<Real> {
        let (j, a) = listing::line(before.a@, false, i as int)[0];
        self.singleton_narrowed(before.bounds@, before.rows@[i as int]->Linear_0, j, a, limits).conflict
    }

    fn singleton_row(&self, model: &mut Model, i: usize, limits: BoundLimits, eager: bool) -> (r:
        Option<Real>)
        requires
            self.wf(),
            old(model).wf(),
        ensures
            final(model).wf(),
            final(model).bounds@.len() == old(model).bounds@.len(),
            self.singleton_row_turn(*old(model), *final(model), i, limits),
            r is Some ==> i < old(model).rows@.len() && old(model).rows@[i as int] is Linear
                && r == self.singleton_conflict(*old(model), i, limits),
            final(model).revision > old(model).revision || *final(model) == *old(model),
    {
        let ghost start = *model;
        if i >= model.rows.len() || model.revision >= usize::MAX - 2 {
            return None;
        }
        let b = match model.rows[i] {
            RowDomain::Linear(b) => b,
            _ => {
                return None;
            },
        };
        let entries = model.row_entries(i);
        if entries.len() != 1 {
            return None;
        }
        let (j, a): (usize, Real) = entries[0];
        assert(entries@[0].0 < model.bounds@.len());
        let interval = self.singleton_interval(b, a);
        let (low, conflict): (bool, Option<Real>) = self.narrow(
            model,
            i,
            j,
            a,
            Side::Lower,
            Some(interval.lower),
            limits,
            false,
            eager,
            Ghost(0),
        );
        if conflict.is_some() {
            return conflict;
        }
        let ghost middle = *model;
        let (high, conflict): (bool, Option<Real>) = self.narrow(
            model,
            i,
            j,
            a,
            Side::Upper,
            Some(interval.upper),
            limits,
            false,
            eager,
            Ghost(
                if low {
                    1nat
                } else {
                    0nat
                },
            ),
        );
        proof {
            bounding::tapes_join(
                start.tape@,
                middle.tape@,
                model.tape@,
                i,
                if low {
                    1nat
                } else {
                    0nat
                },
                if high {
                    1nat
                } else {
                    0nat
                },
            );
        }
        if conflict.is_some() {
            return conflict;
        }
        if interval.lower.at_most(model.bounds[j].lower) && model.bounds[j].upper.at_most(
            interval.upper,
        ) {
            let ghost tape = model.tape@;
            proof {
                model.a.stored_count_fits();
            }
            model.delete_row(i);
            assert(model.tape@.drop_last() =~= tape);
        }
        None
    }

    /// Turn the waiting rows of one entry into bounds, or find one that leaves
    /// its variable no value.
    pub fn singleton_rows(&self, model: &mut Model, limits: BoundLimits, eager: bool) -> (r: Result<
        (),
        (usize, Real),
    >)
        requires
            self.wf(),
            old(model).wf(),
        ensures
            self.singleton_rows_done(
                *old(model),
                *final(model),
                limits,
                eager,
                r,
            ),
    {
        let ghost mut states: Seq<Model> = seq![*model];
        let ghost mut items: Seq<usize> = Seq::empty();
        while !model.queues.singleton_rows.is_empty()
            invariant
                self.wf(),
                model.wf(),
                model.bounds@.len() == old(model).bounds@.len(),
                passes::walk(self.singleton_row_turns(limits), states, items),
                states[0] == *old(model),
                states.last() == *model,
                items.len() == 0 ==> *model == *old(model),
                items.len() > 0 ==> old(model).queues.singleton_rows@.len() > 0 && items[0] == old(
                    model,
                ).queues.singleton_rows@.last(),
            decreases usize::MAX - model.revision, model.queues.singleton_rows@.len(),
        {
            let ghost w = *model;
            let i: usize = match model.queues.singleton_rows.pop() {
                Some(i) => i,
                None => {
                    return Ok(());
                },
            };
            assert(model.wf());
            let conflict = self.singleton_row(model, i, limits, eager);
            proof {
                assert(self.singleton_row_turn(w, *model, i, limits));
                passes::walk_on(self.singleton_row_turns(limits), states, items, *model, i);
                states = states.push(*model);
                items = items.push(i);
                assert(states[items.len() - 1] == w);
            }
            if let Some(multiplier) = conflict {
                return Err((i, multiplier));
            }
        }
        Ok(())
    }

    /// A substitution through an equality row was made or refused.
    pub open spec fn through<E: Fn() -> bool>(
        &self,
        w: passes::Work,
        v: passes::Work,
        row: usize,
        column: usize,
        effective: Bounds,
        max_fill: nat,
        allow_growth: bool,
        expired: E,
    ) -> bool {
        exists|r: Result<(), Failure>| #[trigger]
            self.substituted_through(
                w.model,
                w.objective,
                v.model,
                v.objective,
                row,
                column,
                effective,
                max_fill,
                allow_growth,
                expired,
                r,
            )
    }

    /// A substitution on one side of a row was made or refused.
    pub open spec fn on_side<E: Fn() -> bool>(
        &self,
        w: passes::Work,
        v: passes::Work,
        row: usize,
        column: usize,
        side: Real,
        effective: Bounds,
        max_fill: nat,
        allow_growth: bool,
        expired: E,
    ) -> bool {
        exists|r: Result<(), Failure>| #[trigger]
            self.substituted_on_side(
                w.model,
                w.objective,
                v.model,
                v.objective,
                row,
                column,
                side,
                effective,
                max_fill,
                allow_growth,
                expired,
                r,
            )
    }

    pub open spec fn singleton_column_turn<E: Fn() -> bool>(
        &self,
        w: passes::Work,
        v: passes::Work,
        j: usize,
        max_fill: nat,
        allow_growth: bool,
        expired: E,
    ) -> bool {
        if j < w.model.bounds@.len() {
            match self.singleton_choice(w.model, w.objective, j) {
                SingletonChoice::Skip => passes::untouched(w, v),
                SingletonChoice::Equality { row, effective } => self.through(
                    w,
                    v,
                    row,
                    j,
                    effective,
                    max_fill,
                    allow_growth,
                    expired,
                ),
                SingletonChoice::Side { row, rhs, effective } => self.on_side(
                    w,
                    v,
                    row,
                    j,
                    rhs,
                    effective,
                    max_fill,
                    allow_growth,
                    expired,
                ),
            }
        } else {
            passes::untouched(w, v)
        }
    }

    pub open spec fn singleton_column_turns<E: Fn() -> bool>(
        &self,
        max_fill: nat,
        allow_growth: bool,
        expired: E,
    ) -> spec_fn(passes::Work, passes::Work, usize) -> bool {
        |w: passes::Work, v: passes::Work, j: usize|
            self.singleton_column_turn(w, v, j, max_fill, allow_growth, expired)
    }

    /// One round over the columns of one entry: substitute them through their
    /// equality, or on the side of their row that the objective prefers.
    pub fn singleton_columns<E: Fn() -> bool>(
        &self,
        model: &mut Model,
        objective: &mut Objective,
        max_fill: usize,
        allow_growth: bool,
        expired: &E,
    )
        requires
            self.wf(),
            old(model).wf(),
            old(objective).wf(),
            old(objective).c@.len() == old(model).bounds@.len(),
            call_requires(*expired, ()),
        ensures
            self.singleton_columns_done(
                passes::work(*old(model), *old(objective)),
                passes::work(*final(model), *final(objective)),
                max_fill,
                allow_growth,
                *expired,
            ),
    {
        enlist_rows(model);
        let ghost waiting = model.queues.singleton_columns@;
        let round = model.queues.singleton_columns.take_round();
        assert(model.wf());
        let ghost turns = self.singleton_column_turns(max_fill as nat, allow_growth, *expired);
        let ghost mut states: Seq<passes::Work> = seq![passes::work(*model, *objective)];
        let ghost mut items: Seq<usize> = Seq::empty();
        assert(items =~= waiting.take(0));
        let mut k: usize = 0;
        while k < round.len()
            invariant
                k <= round@.len(),
                round@ == waiting,
                waiting == rows_enlisted(
                    old(model).queues.singleton_columns@,
                    *old(model),
                    old(model).queues.changed_activities.singleton(),
                    0,
                ),
                self.wf(),
                model.wf(),
                objective.wf(),
                objective.c@.len() == model.bounds@.len(),
                call_requires(*expired, ()),
                turns == self.singleton_column_turns(max_fill as nat, allow_growth, *expired),
                passes::walk(turns, states, items),
                passes::untouched(passes::work(*old(model), *old(objective)), states[0]),
                states.last() == passes::work(*model, *objective),
                items == waiting.take(k as int),
            decreases round@.len() - k,
        {
            if expired() {
                return ;
            }
            let ghost w = passes::work(*model, *objective);
            let j: usize = round[k];
            if j < model.alive.len() {
                let choice = self.choose_singleton(model, objective, j);
                assert(choice == self.singleton_choice(w.model, w.objective, j));
                match choice {
                    SingletonChoice::Skip => {},
                    SingletonChoice::Equality { row, effective } => {
                        let r = self.substitute(
                            model,
                            objective,
                            row,
                            j,
                            effective,
                            max_fill,
                            allow_growth,
                            expired,
                        );
                        let ghost v = passes::work(*model, *objective);
                        let ghost result = r->Some_0;
                        assert(self.substituted_through(
                            w.model,
                            w.objective,
                            v.model,
                            v.objective,
                            row,
                            j,
                            effective,
                            max_fill as nat,
                            allow_growth,
                            *expired,
                            result,
                        ));
                        assert(self.through(
                            w,
                            v,
                            row,
                            j,
                            effective,
                            max_fill as nat,
                            allow_growth,
                            *expired,
                        ));
                    },
                    SingletonChoice::Side { row, rhs, effective } => {
                        let r = self.substitute_on_side(
                            model,
                            objective,
                            row,
                            j,
                            rhs,
                            effective,
                            max_fill,
                            allow_growth,
                            expired,
                        );
                        let ghost v = passes::work(*model, *objective);
                        let ghost result = r->Some_0;
                        assert(self.substituted_on_side(
                            w.model,
                            w.objective,
                            v.model,
                            v.objective,
                            row,
                            j,
                            rhs,
                            effective,
                            max_fill as nat,
                            allow_growth,
                            *expired,
                            result,
                        ));
                        assert(self.on_side(
                            w,
                            v,
                            row,
                            j,
                            rhs,
                            effective,
                            max_fill as nat,
                            allow_growth,
                            *expired,
                        ));
                    },
                }
            }
            k = k + 1;
            proof {
                let v = passes::work(*model, *objective);
                assert(self.singleton_column_turn(
                    w,
                    v,
                    j,
                    max_fill as nat,
                    allow_growth,
                    *expired,
                ));
                passes::walk_on(turns, states, items, v, j);
                states = states.push(v);
                items = items.push(j);
                assert(items =~= waiting.take(k as int));
            }
        }
        assert(waiting.take(k as int) =~= waiting);
    }
}

/// Schedule the columns of one entry of a row, from place `k` of its entries
/// on.
pub open spec fn columns_enlisted(
    queue: Seq<usize>,
    a: Map<(int, int), Real>,
    entries: Seq<(usize, Real)>,
    k: int,
) -> Seq<usize>
    decreases entries.len() - k,
{
    if k >= entries.len() {
        queue
    } else {
        columns_enlisted(
            if linked::line_items(a, true, entries[k].0 as int).len() == 1 {
                queues::scheduled(queue, entries[k].0)
            } else {
                queue
            },
            a,
            entries,
            k + 1,
        )
    }
}

/// Schedule the columns of one entry of the listed rows, from place `k` on.
pub open spec fn rows_enlisted(
    queue: Seq<usize>,
    model: Model,
    rows: Seq<usize>,
    k: int,
) -> Seq<usize>
    decreases rows.len() - k,
{
    if k >= rows.len() {
        queue
    } else {
        rows_enlisted(
            if rows[k] < model.rows@.len() && !(model.rows@[rows[k] as int] is Deleted) {
                columns_enlisted(
                    queue,
                    model.a@,
                    listing::line(model.a@, false, rows[k] as int),
                    0,
                )
            } else {
                queue
            },
            model,
            rows,
            k + 1,
        )
    }
}

/// A neighbour's bound may free a column of one entry without a change of its
/// own: schedule those of the rows whose activity changed.
fn enlist_rows(model: &mut Model)
    requires
        old(model).wf(),
    ensures
        final(model).wf(),
        passes::same_model(*old(model), *final(model)),
        final(model).bounds@ == old(model).bounds@,
        final(model).queues.singleton_columns@ == rows_enlisted(
            old(model).queues.singleton_columns@,
            *old(model),
            old(model).queues.changed_activities.singleton(),
            0,
        ),
{
    let ghost start = *model;
    let rows = model.queues.changed_activities.take_singleton_round();
    let mut k: usize = 0;
    while k < rows.len()
        invariant
            k <= rows@.len(),
            model.wf(),
            start == *old(model),
            passes::same_model(start, *model),
            model.a == start.a,
            model.rows == start.rows,
            rows_enlisted(start.queues.singleton_columns@, start, rows@, 0) == rows_enlisted(
                model.queues.singleton_columns@,
                start,
                rows@,
                k as int,
            ),
        decreases rows@.len() - k,
    {
        let i: usize = rows[k];
        if i < model.rows.len() && model.rows[i] != RowDomain::Deleted {
            let entries = model.row_entries(i);
            let ghost queue = model.queues.singleton_columns@;
            let mut e: usize = 0;
            while e < entries.len()
                invariant
                    e <= entries@.len(),
                    model.wf(),
                    passes::same_model(start, *model),
                    model.a == start.a,
                    model.rows == start.rows,
                    forall|t: int|
                        0 <= t < entries@.len() ==> (#[trigger] entries@[t]).0
                            < model.bounds@.len(),
                    columns_enlisted(queue, start.a@, entries@, 0) == columns_enlisted(
                        model.queues.singleton_columns@,
                        start.a@,
                        entries@,
                        e as int,
                    ),
                decreases entries@.len() - e,
            {
                let j: usize = entries[e].0;
                assert(entries@[e as int].0 < model.bounds@.len());
                if model.a.column(j).len() == 1 {
                    proof {
                        model.a.stored_positions();
                    }
                    model.queues.singleton_columns.push(j);
                }
                e = e + 1;
            }
        }
        k = k + 1;
    }
}

impl<
    P: Fn(Real, Real) -> Real,
    T: Fn(Real, Real) -> Real,
    D: Fn(Real, Real) -> Real,
    H: Fn(Real, Real) -> Real,
> Arithmetic<P, T, D, H> {
    /// What a pass over the rows of one entry does and reports.
    pub open spec fn singleton_rows_done(
        &self,
        before: Model,
        after: Model,
        limits: BoundLimits,
        eager: bool,
        r: Result< (), (usize, Real), >,
    ) -> bool {
        &&& after.wf()
        &&& after.bounds@.len() == before.bounds@.len()
        &&& exists|states: Seq<Model>, items: Seq<usize>|
                {
                    &&& #[trigger] passes::walk(self.singleton_row_turns(limits), states, items)
                    &&& states[0] == before
                    &&& states.last() == after
                    &&& before.queues.singleton_rows@.len() > 0 ==> items.len() > 0 && items[0]
                        == before.queues.singleton_rows@.last()
                    &&& match r {
                        Ok(_) => after.queues.singleton_rows@.len() == 0,
                        Err((i, multiplier)) => {
                            &&& items.len() > 0
                            &&& i == items.last()
                            &&& Some(multiplier) == self.singleton_conflict(
                                states[items.len() - 1],
                                i,
                                limits,
                            )
                        },
                    }
                }
    }

    /// What a pass over the columns of one entry does.
    pub open spec fn singleton_columns_done<E: Fn() -> bool>(
        &self,
        before: Work,
        after: Work,
        max_fill: usize,
        allow_growth: bool,
        expired: E,
    ) -> bool {
        &&& after.model.wf()
        &&& after.objective.wf()
        &&& after.objective.c@.len() == after.model.bounds@.len()
        &&& exists|states: Seq<passes::Work>, items: Seq<usize>|
                {
                    let round = rows_enlisted(
                        before.model.queues.singleton_columns@,
                        before.model,
                        before.model.queues.changed_activities.singleton(),
                        0,
                    );
                    &&& #[trigger] passes::walk(
                        self.singleton_column_turns(max_fill as nat, allow_growth, expired),
                        states,
                        items,
                    )
                    &&& passes::untouched(before, states[0])
                    &&& states.last() == after
                    &&& items.len() <= round.len()
                    &&& items == round.take(items.len() as int)
                    &&& items.len() < round.len() ==> call_ensures(expired, (), true)
                }
    }
}

} // verus!
