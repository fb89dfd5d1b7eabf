//! Minimizing a free column that no row contains out of the objective.

use crate::arithmetic::Arithmetic;
use crate::linked::{self, Entries};
use crate::listing;
use crate::merge;
use crate::model::{self, Model};
use crate::number::{zero, Real};
use crate::objective::{self, Failure, Objective};
use crate::substitution;
use crate::symmetric;
use vstd::prelude::*;

verus! {

/// A column as an affine function of others: the offset and the slopes.
pub type Affine = (Real, Entries);

impl<
    P: Fn(Real, Real) -> Real,
    T: Fn(Real, Real) -> Real,
    D: Fn(Real, Real) -> Real,
    H: Fn(Real, Real) -> Real,
> Arithmetic<P, T, D, H> {
    /// Where the derivative by a column vanishes, as a function of the others. It
    /// needs a positive curvature and finite coefficients.
    pub open spec fn stationary(&self, objective: Objective, column: usize) -> Option<
        (Real, Seq<(usize, Real)>),
    > {
        let diagonal = symmetric::value_at(objective.p@, column as int, column as int);
        let offset = self.quotient(objective.c@[column as int].opposite(), diagonal);
        let slopes = self.equation_slopes(
            listing::line(objective.p@, false, column as int),
            column,
            diagonal,
        );
        if !diagonal.finite() || diagonal.le(zero()) || !offset.finite() || exists|t: int|
            0 <= t < slopes.len() && !(#[trigger] slopes[t]).1.finite() {
            None
        } else {
            Some((offset, slopes))
        }
    }

    fn find_stationary(&self, objective: &Objective, column: usize) -> (r: Option<Affine>)
        requires
            self.wf(),
            objective.wf(),
            column < objective.c@.len(),
        ensures
            match r {
                Some((offset, slopes)) => {
                    &&& self.stationary(*objective, column) == Some((offset, slopes@))
                    &&& merge::increasing(slopes@)
                    &&& forall|t: int|
                        0 <= t < slopes@.len() ==> (#[trigger] slopes@[t]).0 < objective.c@.len()
                            && slopes@[t].0 != column
                },
                None => self.stationary(*objective, column) is None,
            },
    {
        let diagonal = objective.coefficient(column, column);
        if !diagonal.is_finite() || diagonal.at_most(zero()) {
            return None;
        }
        let offset = self.quotient_of(objective.c[column].neg(), diagonal);
        let row = objective.p.row(column).to_vec();
        proof {
            listing::line_is(row@, objective.p@, false, column as int);
            objective::others_increase(row@, column);
            objective.p.stored_positions();
        }
        let rest = objective::without(&row, column);
        let slopes = self.slopes_of(&rest, diagonal);
        assert(slopes@ =~= self.equation_slopes(row@, column, diagonal));
        if !offset.is_finite() || !substitution::finite_values(&slopes) {
            return None;
        }
        proof {
            assert forall|a: int, b: int| 0 <= a < b < slopes@.len() implies (
            #[trigger] slopes@[a]).0 < (#[trigger] slopes@[b]).0 by {
                assert(rest@[a].0 < rest@[b].0);
            }
            assert forall|t: int| 0 <= t < slopes@.len() implies (#[trigger] slopes@[t]).0
                < objective.c@.len() && slopes@[t].0 != column by {
                objective::others_are_listed(row@, column, t);
                let b = choose|b: int| 0 <= b < row@.len() && row@[b] == rest@[t];
                assert(objective.p@.contains_key(
                    linked::place(false, column as int, row@[b].0 as int),
                ));
                assert(objective.p@.contains_key((column as int, row@[b].0 as int)));
            }
        }
        Some((offset, slopes))
    }

    /// Minimize a free column without entries out of the objective: where the
    /// derivative vanishes it is an affine function of the other columns, which
    /// is returned. The curvature may not grow by more entries than it loses.
    pub fn eliminate_coupled<E: Fn() -> bool>(
        &self,
        model: &mut Model,
        objective: &mut Objective,
        column: usize,
        max_fill: usize,
        expired: &E,
    ) -> (r: Option<Affine>)
        requires
            self.wf(),
            old(model).wf(),
            old(objective).wf(),
            old(objective).c@.len() == old(model).bounds@.len(),
            column < old(model).bounds@.len(),
            call_requires(*expired, ()),
        ensures
            final(model).wf(),
            final(objective).wf(),
            final(objective).c@.len() == final(model).bounds@.len(),
            match r {
                Some((offset, slopes)) => {
                    &&& self.stationary(*old(objective), column) == Some((offset, slopes@))
                    &&& self.planned(
                        *old(objective),
                        listing::line(old(objective).p@, false, column as int),
                        column,
                        offset,
                        slopes@,
                        max_fill as nat,
                        false,
                    ) matches Ok(plan) && substitution::applied(
                        *old(objective),
                        *final(objective),
                        column,
                        plan,
                    )
                    &&& final(model).queues@ == model::columns_noted(
                        old(model).queues@,
                        slopes@,
                        old(model).alive@,
                        old(model).a@,
                    )
                    &&& final(model).alive@ == old(model).alive@.update(column as int, false)
                    &&& final(model).revision == old(model).revision + 1
                    &&& *final(model) == (Model {
                        queues: final(model).queues,
                        alive: final(model).alive,
                        revision: final(model).revision,
                        ..*old(model)
                    })
                },
                None => {
                    &&& *final(model) == *old(model)
                    &&& *final(objective) == *old(objective)
                    &&& {
                        ||| old(model).revision == usize::MAX
                        ||| call_ensures(*expired, (), true)
                        ||| self.stationary(*old(objective), column) is None
                        ||| exists|e: Failure|
                            e != Failure::Deadline && #[trigger] substitution::refused_with(
                                self.planned(
                                    *old(objective),
                                    listing::line(old(objective).p@, false, column as int),
                                    column,
                                    self.stationary(*old(objective), column)->Some_0.0,
                                    self.stationary(*old(objective), column)->Some_0.1,
                                    max_fill as nat,
                                    false,
                                ),
                                *old(objective),
                                e,
                            )
                    }
                },
            },
    {
        if model.revision == usize::MAX {
            return None;
        }
        let (offset, slopes): (Real, Entries) = match self.find_stationary(objective, column) {
            None => {
                return None;
            },
            Some(pair) => pair,
        };
        let ghost start = *objective;
        match self.try_substitute(objective, column, offset, &slopes, max_fill, false, expired) {
            Err(e) => {
                proof {
                    if e != Failure::Deadline {
                        let terms = choose|terms: Seq<(usize, Real)>|
                            linked::lists_line(terms, start.p@, false, column as int)
                                && substitution::refused_with(
                                #[trigger] self.planned(
                                    start,
                                    terms,
                                    column,
                                    offset,
                                    slopes@,
                                    max_fill as nat,
                                    false,
                                ),
                                start,
                                e,
                            );
                        listing::line_is(terms, start.p@, false, column as int);
                    }
                }
                return None;
            },
            Ok(gradient) => {
                proof {
                    listing::line_is(gradient.terms@, start.p@, false, column as int);
                }
            },
        }
        model.note_columns(&slopes);
        model.alive.set(column, false);
        model.revision = model.revision + 1;
        Some((offset, slopes))
    }
}

} // verus!
