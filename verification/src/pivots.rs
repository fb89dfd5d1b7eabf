//! Substitutions through equalities of two entries or more.

use crate::arithmetic::Arithmetic;
use crate::bounds::{Bounds, RowDomain};
use crate::choices;
use crate::choices::{choose_short_pivot, non_implied_bounds};
use crate::linked;
use crate::listing;
use crate::model::Model;
use crate::number::{zero, Real};
use crate::objective::{Failure, Objective};
use crate::passes::{self, Work};
use crate::queues;
use crate::settings::{EqualitySettings, WorkLimit};
use crate::sparsify;
use crate::trees;
use vstd::prelude::*;

verus! {

pub fn capped_sum(a: usize, b: usize) -> (n: usize)
    ensures
        n == sparsify::capped(a + b),
{
    if a <= usize::MAX - b {
        a + b
    } else {
        usize::MAX
    }
}

pub fn capped_product(a: usize, b: usize) -> (n: usize)
    ensures
        n == sparsify::capped(a * b),
{
    proof {
        assert(0 <= a * b <= usize::MAX * usize::MAX) by (nonlinear_arith)
            requires
                0 <= a <= usize::MAX,
                0 <= b <= usize::MAX,
        ;
        assert(usize::MAX * usize::MAX <= u128::MAX) by (nonlinear_arith)
            requires
                usize::MAX <= 0xffff_ffff_ffff_ffff,
        ;
    }
    let n: u128 = a as u128 * b as u128;
    if n <= usize::MAX as u128 {
        n as usize
    } else {
        usize::MAX
    }
}

/// The lengths of the rows of a column on top of `cost`, from place `k` of its
/// entries on, up to the largest count.
pub open spec fn rows_cost(
    a: Map<(int, int), Real>,
    entries: Seq<(usize, Real)>,
    cost: int,
    k: int,
) -> int
    decreases entries.len() - k,
{
    if k >= entries.len() {
        cost
    } else {
        rows_cost(
            a,
            entries,
            sparsify::capped(cost + linked::line_items(a, false, entries[k].0 as int).len()),
            k + 1,
        )
    }
}

pub(crate) fn add_rows(model: &Model, entries: &Vec<(usize, Real)>, base: usize) -> (cost: usize)
    requires
        model.wf(),
        forall|k: int| 0 <= k < entries@.len() ==> (#[trigger] entries@[k]).0 < model.rows@.len(),
    ensures
        cost == rows_cost(model.a@, entries@, base as int, 0),
{
    let mut cost: usize = base;
    let mut k: usize = 0;
    while k < entries.len()
        invariant
            k <= entries@.len(),
            model.wf(),
            forall|k: int|
                0 <= k < entries@.len() ==> (#[trigger] entries@[k]).0 < model.rows@.len(),
            rows_cost(model.a@, entries@, base as int, 0) == rows_cost(
                model.a@,
                entries@,
                cost as int,
                k as int,
            ),
        decreases entries@.len() - k,
    {
        assert(entries@[k as int].0 < model.rows@.len());
        cost = capped_sum(cost, model.a.row(entries[k].0).len());
        k = k + 1;
    }
    cost
}

/// A model with its objective, and the entries that may still be visited.
pub ghost struct Budgeted {
    pub work: passes::Work,
    pub left: usize,
}

pub open spec fn budgeted(model: Model, objective: Objective, left: usize) -> Budgeted {
    Budgeted { work: passes::work(model, objective), left }
}

/// A row waits for the next pass.
pub open spec fn requeued(before: Budgeted, after: Budgeted, i: usize) -> bool {
    &&& passes::untouched(before.work, after.work)
    &&& after.left == before.left
    &&& after.work.model.queues.short_equalities@ == queues::scheduled(
        before.work.model.queues.short_equalities@,
        i,
    )
}

impl<
    P: Fn(Real, Real) -> Real,
    T: Fn(Real, Real) -> Real,
    D: Fn(Real, Real) -> Real,
    H: Fn(Real, Real) -> Real,
> Arithmetic<P, T, D, H> {
    /// A variable was substituted through an equality row.
    pub open spec fn made<E: Fn() -> bool>(
        &self,
        w: passes::Work,
        v: passes::Work,
        row: usize,
        column: usize,
        effective: Bounds,
        max_fill: nat,
        allow_growth: bool,
        expired: E,
    ) -> bool {
        w.model.alive@[column as int] && exists|r: Result<(), Failure>|
            {
                &&& #[trigger] self.substituted_through(
                    w.model,
                    w.objective,
                    v.model,
                    v.objective,
                    row,
                    column,
                    effective,
                    max_fill,
                    allow_growth,
                    expired,
                    r,
                )
                &&& r is Ok
            }
    }

    /// A variable is gone, or its substitution was refused.
    pub open spec fn declined<E: Fn() -> bool>(
        &self,
        w: passes::Work,
        row: usize,
        column: usize,
        effective: Bounds,
        max_fill: nat,
        allow_growth: bool,
        expired: E,
    ) -> bool {
        w.model.alive@[column as int] ==> exists|e: Failure| #[trigger]
            self.substituted_through(
                w.model,
                w.objective,
                w.model,
                w.objective,
                row,
                column,
                effective,
                max_fill,
                allow_growth,
                expired,
                Err(e),
            )
    }

    /// Try a substitution through an equality row.
    pub(crate) fn pivot_on<E: Fn() -> bool>(
        &self,
        model: &mut Model,
        objective: &mut Objective,
        row: usize,
        column: usize,
        effective: Bounds,
        max_fill: usize,
        allow_growth: bool,
        expired: &E,
    ) -> (done: bool)
        requires
            self.wf(),
            old(model).wf(),
            old(objective).wf(),
            old(objective).c@.len() == old(model).bounds@.len(),
            call_requires(*expired, ()),
            column < old(model).bounds@.len(),
            row < old(model).rows@.len(),
            old(model).rows@[row as int] matches RowDomain::Linear(b) && b.is_equality(),
        ensures
            final(model).wf(),
            final(objective).wf(),
            final(objective).c@.len() == final(model).bounds@.len(),
            final(model).bounds@ == old(model).bounds@,
            done ==> self.made(
                passes::work(*old(model), *old(objective)),
                passes::work(*final(model), *final(objective)),
                row,
                column,
                effective,
                max_fill as nat,
                allow_growth,
                *expired,
            ),
            !done ==> {
                &&& *final(model) == *old(model)
                &&& *final(objective) == *old(objective)
                &&& self.declined(
                    passes::work(*old(model), *old(objective)),
                    row,
                    column,
                    effective,
                    max_fill as nat,
                    allow_growth,
                    *expired,
                )
            },
    {
        let ghost w = passes::work(*model, *objective);
        let r = self.substitute(
            model,
            objective,
            row,
            column,
            effective,
            max_fill,
            allow_growth,
            expired,
        );
        match r {
            Some(Ok(_)) => {
                proof {
                    let v = passes::work(*model, *objective);
                    let result = r->Some_0;
                    assert(self.substituted_through(
                        w.model,
                        w.objective,
                        v.model,
                        v.objective,
                        row,
                        column,
                        effective,
                        max_fill as nat,
                        allow_growth,
                        *expired,
                        result,
                    ));
                }
                true
            },
            Some(Err(e)) => {
                assert(self.substituted_through(
                    w.model,
                    w.objective,
                    w.model,
                    w.objective,
                    row,
                    column,
                    effective,
                    max_fill as nat,
                    allow_growth,
                    *expired,
                    Err(e),
                ));
                false
            },
            None => false,
        }
    }

    pub open spec fn doubleton_turn<I: Fn(Real) -> bool, E: Fn() -> bool>(
        &self,
        w: passes::Work,
        v: passes::Work,
        i: usize,
        max_fill: nat,
        allow_growth: bool,
        whole: I,
        expired: E,
    ) -> bool {
        if i < w.model.rows@.len() {
            match self.doubleton_choice(w.model, w.objective, i as int, whole) {
                None => passes::untouched(w, v),
                Some(c) => {
                    let b = w.model.bounds@;
                    ||| self.made(
                        w,
                        v,
                        i,
                        c.first,
                        b[c.first as int],
                        max_fill,
                        allow_growth,
                        expired,
                    )
                    ||| self.declined(
                        w,
                        i,
                        c.first,
                        b[c.first as int],
                        max_fill,
                        allow_growth,
                        expired,
                    ) && match c.second {
                        None => passes::untouched(w, v),
                        Some(k) => {
                            ||| self.made(
                                w,
                                v,
                                i,
                                k,
                                b[k as int],
                                max_fill,
                                allow_growth,
                                expired,
                            )
                            ||| passes::untouched(w, v) && self.declined(
                                w,
                                i,
                                k,
                                b[k as int],
                                max_fill,
                                allow_growth,
                                expired,
                            )
                        },
                    }
                },
            }
        } else {
            passes::untouched(w, v)
        }
    }

    pub open spec fn doubleton_turns<I: Fn(Real) -> bool, E: Fn() -> bool>(
        &self,
        max_fill: nat,
        allow_growth: bool,
        whole: I,
        expired: E,
    ) -> spec_fn(passes::Work, passes::Work, usize) -> bool {
        |w: passes::Work, v: passes::Work, i: usize|
            self.doubleton_turn(w, v, i, max_fill, allow_growth, whole, expired)
    }

    /// One round over the equalities of two entries.
    pub fn doubleton_equalities<I: Fn(Real) -> bool, E: Fn() -> bool>(
        &self,
        model: &mut Model,
        objective: &mut Objective,
        max_fill: usize,
        allow_growth: bool,
        whole: &I,
        expired: &E,
    )
        requires
            self.wf(),
            old(model).wf(),
            old(objective).wf(),
            old(objective).c@.len() == old(model).bounds@.len(),
            choices::decides(*whole),
            call_requires(*expired, ()),
        ensures
            self.doubleton_equalities_done(
                passes::work(*old(model), *old(objective)),
                passes::work(*final(model), *final(objective)),
                max_fill,
                allow_growth,
                *whole,
                *expired,
            ),
    {
        let ghost waiting = model.queues.doubleton_rows@;
        let round = model.queues.doubleton_rows.take_round();
        assert(model.wf());
        let ghost turns = self.doubleton_turns(max_fill as nat, allow_growth, *whole, *expired);
        let ghost mut states: Seq<passes::Work> = seq![passes::work(*model, *objective)];
        let ghost mut items: Seq<usize> = Seq::empty();
        assert(items =~= waiting.take(0));
        let mut k: usize = 0;
        while k < round.len()
            invariant
                k <= round@.len(),
                round@ == waiting,
                waiting == old(model).queues.doubleton_rows@,
                self.wf(),
                model.wf(),
                objective.wf(),
                objective.c@.len() == model.bounds@.len(),
                choices::decides(*whole),
                call_requires(*expired, ()),
                turns == self.doubleton_turns(max_fill as nat, allow_growth, *whole, *expired),
                passes::walk(turns, states, items),
                passes::untouched(passes::work(*old(model), *old(objective)), states[0]),
                states.last() == passes::work(*model, *objective),
                items == waiting.take(k as int),
            decreases round@.len() - k,
        {
            if expired() {
                return ;
            }
            let ghost w = passes::work(*model, *objective);
            let i: usize = round[k];
            if i < model.rows.len() {
                if let Some(c) = self.choose_doubleton(model, objective, i, whole) {
                    let b = model.bounds[c.first];
                    let done = self.pivot_on(
                        model,
                        objective,
                        i,
                        c.first,
                        b,
                        max_fill,
                        allow_growth,
                        expired,
                    );
                    if !done {
                        if let Some(second) = c.second {
                            let b = model.bounds[second];
                            self.pivot_on(
                                model,
                                objective,
                                i,
                                second,
                                b,
                                max_fill,
                                allow_growth,
                                expired,
                            );
                        }
                    }
                }
            }
            k = k + 1;
            proof {
                let v = passes::work(*model, *objective);
                assert(self.doubleton_turn(
                    w,
                    v,
                    i,
                    max_fill as nat,
                    allow_growth,
                    *whole,
                    *expired,
                ));
                passes::walk_on(turns, states, items, v, i);
                states = states.push(v);
                items = items.push(i);
                assert(items =~= waiting.take(k as int));
            }
        }
        assert(waiting.take(k as int) =~= waiting);
    }

    /// The bounds that stay behind when a pivot leaves through its equality.
    pub open spec fn left_behind(&self, model: Model, i: usize, j: usize) -> Bounds {
        let b = model.bounds@[j as int];
        if trees::unbounded(b) {
            Bounds::free()
        } else {
            choices::not_implied(
                b,
                self.tight_range(
                    listing::line(model.a@, false, i as int),
                    model.bounds@,
                    j,
                    linked::value_at(model.a@, i as int, j as int),
                    model.rows@[i as int]->Linear_0.lower,
                ),
            )
        }
    }

    /// How many new entries a substitution may make: no more than leave with the
    /// equation and the pivot, where the count of entries is to be kept.
    pub open spec fn short_fill(
        options: EqualitySettings,
        max_fill: usize,
        degree: usize,
        length: nat,
        effective: Bounds,
    ) -> nat {
        let removed = sparsify::capped(
            degree + if trees::unbounded(effective) {
                length - 1
            } else {
                0
            },
        );
        if options.preserve_nonzeros && removed < max_fill {
            removed as nat
        } else {
            max_fill as nat
        }
    }

    pub open spec fn short_turn<E: Fn() -> bool>(
        &self,
        before: Budgeted,
        after: Budgeted,
        i: usize,
        options: EqualitySettings,
        max_fill: usize,
        allow_growth: bool,
        expired: E,
    ) -> bool {
        let (w, v) = (before.work, after.work);
        let patient = !(options.work_limit is Default);
        let length = listing::line(w.model.a@, false, i as int).len();
        ||| i >= w.model.rows@.len() && passes::untouched(w, v) && after.left == before.left
        ||| i < w.model.rows@.len() && patient && (before.left == 0 || call_ensures(
            expired,
            (),
            true,
        )) && requeued(before, after, i)
        ||| i < w.model.rows@.len() && before.left > 0 && {
            match choices::short_pivot(w.model, w.objective, options, i as int) {
                None => passes::untouched(w, v) && after.left == before.left,
                Some(p) => {
                    let cost = rows_cost(
                        w.model.a@,
                        listing::line(w.model.a@, true, p.column as int),
                        sparsify::capped(length * p.degree),
                        0,
                    );
                    let effective = self.left_behind(w.model, i, p.column);
                    let fill = Self::short_fill(options, max_fill, p.degree, length, effective);
                    if cost > before.left {
                        if patient {
                            requeued(before, after, i)
                        } else {
                            passes::untouched(w, v) && after.left == before.left
                        }
                    } else {
                        &&& after.left == before.left - cost
                        &&& {
                            ||| self.made(
                                w,
                                v,
                                i,
                                p.column,
                                effective,
                                fill,
                                allow_growth,
                                expired,
                            )
                            ||| passes::untouched(w, v) && self.declined(
                                w,
                                i,
                                p.column,
                                effective,
                                fill,
                                allow_growth,
                                expired,
                            )
                        }
                    }
                },
            }
        }
    }

    pub open spec fn short_turns<E: Fn() -> bool>(
        &self,
        options: EqualitySettings,
        max_fill: usize,
        allow_growth: bool,
        expired: E,
    ) -> spec_fn(Budgeted, Budgeted, usize) -> bool {
        |before: Budgeted, after: Budgeted, i: usize|
            self.short_turn(before, after, i, options, max_fill, allow_growth, expired)
    }

    /// Substitute the best pivot of one equality of three entries or more, where
    /// the work allows it.
    fn short_equality<E: Fn() -> bool>(
        &self,
        model: &mut Model,
        objective: &mut Objective,
        i: usize,
        options: EqualitySettings,
        max_fill: usize,
        allow_growth: bool,
        left: usize,
        expired: &E,
    ) -> (rest: usize)
        requires
            self.wf(),
            old(model).wf(),
            old(objective).wf(),
            old(objective).c@.len() == old(model).bounds@.len(),
            call_requires(*expired, ()),
            left > 0,
        ensures
            final(model).wf(),
            final(objective).wf(),
            final(objective).c@.len() == final(model).bounds@.len(),
            self.short_turn(
                budgeted(*old(model), *old(objective), left),
                budgeted(*final(model), *final(objective), rest),
                i,
                options,
                max_fill,
                allow_growth,
                *expired,
            ),
    {
        if i >= model.rows.len() {
            return left;
        }
        let p = match choose_short_pivot(model, objective, options, i) {
            Some(p) => p,
            None => {
                return left;
            },
        };
        let j: usize = p.column;
        let entries = model.row_entries(i);
        let column = model.column_entries(j);
        let length: usize = entries.len();
        let cost: usize = add_rows(model, &column, capped_product(length, p.degree));
        if cost > left {
            let patient = match options.work_limit {
                WorkLimit::Default => false,
                _ => true,
            };
            if patient {
                proof {
                    model.a.stored_positions();
                }
                model.queues.short_equalities.push(i);
            }
            return left;
        }
        let b = model.bounds[j];
        let side = match model.rows[i] {
            RowDomain::Linear(b) => b.lower,
            _ => zero(),
        };
        let effective = if trees::is_unbounded(b) {
            Bounds::free()
        } else {
            let a = model.a.get(i, j);
            non_implied_bounds(b, self.singleton_range(&entries, &model.bounds, j, a, side))
        };
        let removed: usize = capped_sum(
            p.degree,
            if trees::is_unbounded(effective) {
                length - 1
            } else {
                0
            },
        );
        let fill: usize = if options.preserve_nonzeros && removed < max_fill {
            removed
        } else {
            max_fill
        };
        self.pivot_on(model, objective, i, j, effective, fill, allow_growth, expired);
        left - cost
    }

    /// One round over the equalities of three entries or more. Out of work, the
    /// rest of the round waits for the next pass, or is dropped under the
    /// default allowance.
    pub fn short_equalities<E: Fn() -> bool>(
        &self,
        model: &mut Model,
        objective: &mut Objective,
        options: EqualitySettings,
        max_fill: usize,
        allow_growth: bool,
        expired: &E,
    )
        requires
            self.wf(),
            old(model).wf(),
            old(objective).wf(),
            old(objective).c@.len() == old(model).bounds@.len(),
            call_requires(*expired, ()),
        ensures
            self.short_equalities_done(
                passes::work(*old(model), *old(objective)),
                passes::work(*final(model), *final(objective)),
                options,
                max_fill,
                allow_growth,
                *expired,
            ),
    {
        let ghost waiting = model.queues.short_equalities@;
        let entries: usize = model.a.nnz();
        let mut left: usize = options.work_limit.resolve(capped_product(entries, 2));
        let round = model.queues.short_equalities.take_round();
        assert(model.wf());
        let patient = match options.work_limit {
            WorkLimit::Default => false,
            _ => true,
        };
        let ghost turns = self.short_turns(options, max_fill, allow_growth, *expired);
        let ghost mut states: Seq<Budgeted> = seq![budgeted(*model, *objective, left)];
        let ghost mut items: Seq<usize> = Seq::empty();
        assert(items =~= waiting.take(0));
        let mut k: usize = 0;
        while k < round.len()
            invariant
                k <= round@.len(),
                round@ == waiting,
                waiting == old(model).queues.short_equalities@,
                self.wf(),
                model.wf(),
                objective.wf(),
                objective.c@.len() == model.bounds@.len(),
                call_requires(*expired, ()),
                patient == !(options.work_limit is Default),
                turns == self.short_turns(options, max_fill, allow_growth, *expired),
                passes::walk(turns, states, items),
                passes::untouched(passes::work(*old(model), *old(objective)), states[0].work),
                states[0].left == options.work_limit.allowance(
                    sparsify::capped((old(model).a@.dom().len() * 2) as int) as usize,
                ),
                states.last() == budgeted(*model, *objective, left),
                items == waiting.take(k as int),
            decreases round@.len() - k,
        {
            let ghost before = budgeted(*model, *objective, left);
            let i: usize = round[k];
            if left == 0 || expired() {
                if !patient {
                    return ;
                }
                if i < model.rows.len() {
                    proof {
                        model.a.stored_positions();
                    }
                    model.queues.short_equalities.push(i);
                }
            } else {
                left =
                self.short_equality(
                    model,
                    objective,
                    i,
                    options,
                    max_fill,
                    allow_growth,
                    left,
                    expired,
                );
            }
            k = k + 1;
            proof {
                let after = budgeted(*model, *objective, left);
                assert(self.short_turn(
                    before,
                    after,
                    i,
                    options,
                    max_fill,
                    allow_growth,
                    *expired,
                ));
                passes::walk_on(turns, states, items, after, i);
                states = states.push(after);
                items = items.push(i);
                assert(items =~= waiting.take(k as int));
            }
        }
        assert(waiting.take(k as int) =~= waiting);
    }
}

impl<
    P: Fn(Real, Real) -> Real,
    T: Fn(Real, Real) -> Real,
    D: Fn(Real, Real) -> Real,
    H: Fn(Real, Real) -> Real,
> Arithmetic<P, T, D, H> {
    /// What a pass over the equalities of two entries does.
    pub open spec fn doubleton_equalities_done<I: Fn(Real) -> bool, E: Fn() -> bool>(
        &self,
        before: Work,
        after: Work,
        max_fill: usize,
        allow_growth: bool,
        whole: I,
        expired: E,
    ) -> bool {
        &&& after.model.wf()
        &&& after.objective.wf()
        &&& after.objective.c@.len() == after.model.bounds@.len()
        &&& exists|states: Seq<passes::Work>, items: Seq<usize>|
                {
                    let round = before.model.queues.doubleton_rows@;
                    &&& #[trigger] passes::walk(
                        self.doubleton_turns(max_fill as nat, allow_growth, whole, expired),
                        states,
                        items,
                    )
                    &&& passes::untouched(before, states[0])
                    &&& states.last() == after
                    &&& items.len() <= round.len()
                    &&& items == round.take(items.len() as int)
                    &&& items.len() < round.len() ==> call_ensures(expired, (), true)
                }
    }

    /// What a pass over the short equalities does.
    pub open spec fn short_equalities_done<E: Fn() -> bool>(
        &self,
        before: Work,
        after: Work,
        options: EqualitySettings,
        max_fill: usize,
        allow_growth: bool,
        expired: E,
    ) -> bool {
        &&& after.model.wf()
        &&& after.objective.wf()
        &&& after.objective.c@.len() == after.model.bounds@.len()
        &&& exists|states: Seq<Budgeted>, items: Seq<usize>|
                {
                    let round = before.model.queues.short_equalities@;
                    &&& #[trigger] passes::walk(
                        self.short_turns(options, max_fill, allow_growth, expired),
                        states,
                        items,
                    )
                    &&& passes::untouched(
                        before,
                        states[0].work,
                    )
                    &&& states[0].left == options.work_limit.allowance(
                        sparsify::capped((before.model.a@.dom().len() * 2) as int) as usize,
                    )
                    &&& states.last().work == after
                    &&& items.len() <= round.len()
                    &&& items == round.take(items.len() as int)
                    &&& items.len() < round.len() ==> options.work_limit is Default && (
                    states.last().left == 0 || call_ensures(expired, (), true))
                }
    }
}

} // verus!
