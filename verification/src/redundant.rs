//! Bounds that the rows imply anyway.
//!
//! Implied bounds help the rules, but they are not needed afterwards. They are
//! tested one after the other on the model as it then is, so that no two of them
//! vouch for each other.

use crate::arithmetic::Arithmetic;
use crate::bounds::{Bounds, RowDomain, Side};
use crate::linked;
use crate::listing;
use crate::model::Model;
use crate::number::{infinity, neg_infinity, Real};
use crate::order;
use crate::order::Keyed;
use crate::passes;
use vstd::prelude::*;

verus! {

/// A live column with entries and a finite bound.
pub open spec fn has_bound(model: Model, j: int) -> bool {
    &&& model.alive@[j]
    &&& linked::line_items(model.a@, true, j).len() > 0
    &&& model.bounds@[j].lower.finite() || model.bounds@[j].upper.finite()
}

/// Columns by length, then by number.
pub open spec fn shorter(model: Model, i: usize, j: usize) -> bool {
    let (m, n) = (
        linked::line_items(model.a@, true, i as int).len(),
        linked::line_items(model.a@, true, j as int).len(),
    );
    m < n || m == n && i < j
}

/// The columns with a finite bound, the shorter ones first.
pub open spec fn is_agenda(list: Seq<usize>, model: Model) -> bool {
    &&& forall|p: int|
        0 <= p < list.len() ==> (#[trigger] list[p]) < model.bounds@.len() && has_bound(
            model,
            list[p] as int,
        )
    &&& forall|p: int, q: int|
        0 <= p < q < list.len() ==> shorter(model, #[trigger] list[p], #[trigger] list[q])
    &&& forall|j: int|
        0 <= j < model.bounds@.len() && #[trigger] has_bound(model, j) ==> list.contains(j as usize)
}

spec fn keyed_columns(list: Seq<Keyed>, model: Model, n: int) -> bool {
    &&& forall|p: int|
        0 <= p < list.len() ==> (#[trigger] list[p]).2 < n && has_bound(model, list[p].2 as int)
            && list[p].0 == linked::line_items(model.a@, true, list[p].2 as int).len()
            && list[p].1 == 0
    &&& forall|j: int|
        0 <= j < n && #[trigger] has_bound(model, j) ==> list.contains(
            (linked::line_items(model.a@, true, j).len() as u128, 0, j as usize),
        )
    &&& list.no_duplicates()
}

fn agenda(model: &Model) -> (list: Vec<usize>)
    requires
        model.wf(),
    ensures
        is_agenda(list@, *model),
{
    let mut keyed: Vec<Keyed> = Vec::new();
    let mut j: usize = 0;
    while j < model.bounds.len()
        invariant
            j <= model.bounds@.len(),
            model.wf(),
            keyed_columns(keyed@, *model, j as int),
        decreases model.bounds@.len() - j,
    {
        let length: usize = model.a.column(j).len();
        let b = model.bounds[j];
        let ghost before = keyed@;
        if model.alive[j] && length > 0 && (b.lower.is_finite() || b.upper.is_finite()) {
            let item: Keyed = (length as u128, 0, j);
            keyed.push(item);
            proof {
                assert forall|k: int| 0 <= k < j + 1 && #[trigger] has_bound(*model, k) implies keyed@.contains(
                    (linked::line_items(model.a@, true, k).len() as u128, 0, k as usize),
                ) by {
                    let x: Keyed = (
                        linked::line_items(model.a@, true, k).len() as u128,
                        0,
                        k as usize,
                    );
                    if k < j {
                        assert(before.contains(x));
                        let p = choose|p: int| 0 <= p < before.len() && before[p] == x;
                        assert(keyed@[p] == x);
                    } else {
                        assert(keyed@[keyed@.len() - 1] == x);
                    }
                }
            }
        }
        j = j + 1;
    }
    let ghost raw = keyed@;
    order::sort_keyed(&mut keyed);
    proof {
        crate::grouping::same_keyed(keyed@, raw);
        assert forall|p: int| 0 <= p < keyed@.len() implies raw.contains(#[trigger] keyed@[p]) by {
            assert(keyed@.contains(keyed@[p]));
        }
        assert forall|p: int| 0 <= p < keyed@.len() implies (#[trigger] keyed@[p]).2
            < model.bounds@.len() && has_bound(*model, keyed@[p].2 as int) && keyed@[p].0
            == linked::line_items(model.a@, true, keyed@[p].2 as int).len() && keyed@[p].1 == 0 by {
            let q = choose|q: int| 0 <= q < raw.len() && raw[q] == keyed@[p];
            assert(raw[q].2 < model.bounds@.len());
        }
        assert(keyed_columns(keyed@, *model, model.bounds@.len() as int));
    }
    let mut list: Vec<usize> = Vec::new();
    let mut k: usize = 0;
    while k < keyed.len()
        invariant
            k <= keyed@.len(),
            list@.len() == k,
            forall|p: int| 0 <= p < k ==> #[trigger] list@[p] == keyed@[p].2,
        decreases keyed@.len() - k,
    {
        list.push(keyed[k].2);
        k = k + 1;
    }
    proof {
        assert forall|p: int, q: int| 0 <= p < q < list@.len() implies shorter(
            *model,
            #[trigger] list@[p],
            #[trigger] list@[q],
        ) by {
            assert(order::keyed_before(keyed@[p], keyed@[q]));
            assert(keyed@[p] != keyed@[q]);
        }
        assert forall|p: int| 0 <= p < list@.len() implies (#[trigger] list@[p])
            < model.bounds@.len() && has_bound(*model, list@[p] as int) by {
            assert(keyed@[p].2 < model.bounds@.len());
        }
        assert forall|j: int|
            0 <= j < model.bounds@.len() && #[trigger] has_bound(*model, j) implies list@.contains(
            j as usize,
        ) by {
            let x: Keyed = (linked::line_items(model.a@, true, j).len() as u128, 0, j as usize);
            assert(keyed@.contains(x));
            let p = choose|p: int| 0 <= p < keyed@.len() && keyed@[p] == x;
            assert(list@[p] == j as usize);
        }
    }
    list
}

impl<
    P: Fn(Real, Real) -> Real,
    T: Fn(Real, Real) -> Real,
    D: Fn(Real, Real) -> Real,
    H: Fn(Real, Real) -> Real,
> Arithmetic<P, T, D, H> {
    /// A row keeps a variable from passing one of its bounds.
    pub open spec fn row_keeps(
        &self,
        model: Model,
        j: usize,
        side: Side,
        entry: (usize, Real),
    ) -> bool {
        let (i, a) = entry;
        let b = model.bounds@[j as int];
        let entries = listing::line(model.a@, false, i as int);
        &&& model.rows@[i as int] is Linear
        &&& self.implied_from(
            self.span(entries, model.bounds@),
            entries,
            model.bounds@,
            j,
            a,
            model.rows@[i as int]->Linear_0,
            Self::bounding_side(a, side),
        ) matches Some(v) && v.finite() && match side {
            Side::Lower => b.lower.le(v),
            Side::Upper => v.le(b.upper),
        }
    }

    /// Some row keeps a variable from passing one of its bounds.
    pub open spec fn needless(&self, model: Model, j: usize, side: Side) -> bool {
        let column = listing::line(model.a@, true, j as int);
        exists|t: int|
            0 <= t < column.len() && self.row_keeps(model, j, side, #[trigger] column[t])
    }

    /// A bound that is not needed goes.
    pub open spec fn relax_turn(&self, before: Model, after: Model, j: usize, side: Side) -> bool {
        if self.needless(before, j, side) && before.revision < usize::MAX {
            let b = before.bounds@[j as int];
            &&& after.a == before.a
            &&& after.rows@ == before.rows@
            &&& after.alive@ == before.alive@
            &&& after.tape@ == before.tape@
            &&& after.bounds@ == before.bounds@.update(
                j as int,
                match side {
                    Side::Lower => Bounds { lower: neg_infinity(), ..b },
                    Side::Upper => Bounds { upper: infinity(), ..b },
                },
            )
        } else {
            after == before
        }
    }

    /// Whether a row keeps a variable from passing one of its bounds.
    pub fn bound_implied(&self, model: &Model, j: usize, side: Side) -> (b: bool)
        requires
            self.wf(),
            model.wf(),
            j < model.bounds@.len(),
        ensures
            b == self.needless(*model, j, side),
    {
        let b = model.bounds[j];
        let column = model.column_entries(j);
        let mut k: usize = 0;
        while k < column.len()
            invariant
                k <= column@.len(),
                self.wf(),
                model.wf(),
                j < model.bounds@.len(),
                b == model.bounds@[j as int],
                column@ == listing::line(model.a@, true, j as int),
                forall|t: int|
                    0 <= t < column@.len() ==> (#[trigger] column@[t]).0 < model.rows@.len(),
                forall|t: int|
                    0 <= t < k ==> !self.row_keeps(*model, j, side, #[trigger] column@[t]),
            decreases column@.len() - k,
        {
            let (i, a): (usize, Real) = column[k];
            assert(column@[k as int].0 < model.rows@.len());
            if let RowDomain::Linear(row) = model.rows[i] {
                let entries = model.row_entries(i);
                let activity = self.activity_of(&entries, &model.bounds, None);
                assert(activity == self.span(entries@, model.bounds@));
                let implied = self.implied_side(
                    activity,
                    &entries,
                    &model.bounds,
                    j,
                    a,
                    row,
                    side,
                );
                if let Some(v) = implied {
                    let keeps = v.is_finite() && match side {
                        Side::Lower => b.lower.at_most(v),
                        Side::Upper => v.at_most(b.upper),
                    };
                    if keeps {
                        assert(self.row_keeps(*model, j, side, column@[k as int]));
                        return true;
                    }
                }
            }
            assert(!self.row_keeps(*model, j, side, column@[k as int]));
            k = k + 1;
        }
        false
    }

    /// Remove a bound that a row implies.
    pub fn remove_redundant_bound(&self, model: &mut Model, j: usize, side: Side, eager: bool)
        requires
            self.wf(),
            old(model).wf(),
            j < old(model).bounds@.len(),
        ensures
            final(model).wf(),
            self.relax_turn(*old(model), *final(model), j, side),
    {
        if model.revision < usize::MAX && self.bound_implied(model, j, side) {
            model.relax_bound(j, side, eager);
        }
    }

    /// One column of the first sweep: the upper bound where it is finite, else
    /// the lower one.
    pub open spec fn one_sided_turn(&self, before: Model, after: Model, j: usize) -> bool {
        let b = before.bounds@[j as int];
        if b.upper.finite() {
            self.relax_turn(before, after, j, Side::Upper)
        } else if b.lower.finite() {
            self.relax_turn(before, after, j, Side::Lower)
        } else {
            after == before
        }
    }

    pub open spec fn one_sided_turns(&self) -> spec_fn(Model, Model, usize) -> bool {
        |before: Model, after: Model, j: usize| self.one_sided_turn(before, after, j)
    }

    pub open spec fn lower_turns(&self) -> spec_fn(Model, Model, usize) -> bool {
        |before: Model, after: Model, j: usize| self.relax_turn(before, after, j, Side::Lower)
    }

    /// Remove the bounds that rows imply: one side of every column, then the
    /// lower side of those that had both.
    pub fn remove_redundant_bounds(&self, model: &mut Model, eager: bool)
        requires
            self.wf(),
            old(model).wf(),
        ensures
            self.remove_redundant_bounds_done(
                *old(model),
                *final(model),
                eager,
            ),
    {
        let columns: usize = model.bounds.len();
        let list = agenda(model);
        let mut both: Vec<usize> = Vec::new();
        let ghost keep = |j: usize| two_sided(old(model).bounds@[j as int]);
        let ghost mut states: Seq<Model> = seq![*model];
        let ghost mut done: Seq<usize> = Seq::empty();
        let mut k: usize = 0;
        proof {
            assert forall|p: int, q: int| 0 <= p < q < list@.len() implies list@[p] != list@[q] by {
                assert(shorter(*model, list@[p], list@[q]));
            }
            assert(list@.take(0) =~= done);
            assert(list@.take(0).filter(keep) =~= both@) by {
                reveal(Seq::filter);
            }
        }
        while k < list.len()
            invariant
                k <= list@.len(),
                self.wf(),
                model.wf(),
                columns == old(model).bounds@.len(),
                model.bounds@.len() == columns,
                is_agenda(list@, *old(model)),
                list@.no_duplicates(),
                keep == (|j: usize| two_sided(old(model).bounds@[j as int])),
                forall|p: int|
                    k <= p < list@.len() ==> model.bounds@[(#[trigger] list@[p]) as int] == old(
                        model,
                    ).bounds@[list@[p] as int],
                both@ == list@.take(k as int).filter(keep),
                forall|p: int| 0 <= p < both@.len() ==> (#[trigger] both@[p]) < columns,
                done == list@.take(k as int),
                passes::walk(self.one_sided_turns(), states, done),
                states[0] == *old(model),
                states.last() == *model,
            decreases list@.len() - k,
        {
            let j: usize = list[k];
            assert(list@[k as int] < columns);
            let b = model.bounds[j];
            assert(b == old(model).bounds@[j as int]);
            let ghost before = *model;
            proof {
                assert(list@.take(k + 1) =~= list@.take(k as int).push(j));
                assert(list@.take(k + 1).drop_last() =~= list@.take(k as int));
                reveal(Seq::filter);
            }
            if b.upper.is_finite() {
                if b.lower.is_finite() {
                    both.push(j);
                }
                self.remove_redundant_bound(model, j, Side::Upper, eager);
            } else if b.lower.is_finite() {
                self.remove_redundant_bound(model, j, Side::Lower, eager);
            }
            k = k + 1;
            proof {
                assert(self.one_sided_turn(before, *model, j));
                passes::walk_on(self.one_sided_turns(), states, done, *model, j);
                states = states.push(*model);
                done = done.push(j);
                assert(done =~= list@.take(k as int));
                assert forall|p: int| k <= p < list@.len() implies model.bounds@[(
                #[trigger] list@[p]) as int] == old(model).bounds@[list@[p] as int] by {
                    assert(list@[p] != list@[k - 1]);
                }
            }
        }
        let ghost middle = *model;
        let ghost mut later: Seq<Model> = seq![*model];
        let ghost mut swept: Seq<usize> = Seq::empty();
        let mut k: usize = 0;
        assert(done =~= list@);
        assert(both@ == list@.filter(keep));
        assert(swept =~= both@.take(0));
        while k < both.len()
            invariant
                k <= both@.len(),
                self.wf(),
                model.wf(),
                model.bounds@.len() == columns,
                forall|p: int| 0 <= p < both@.len() ==> (#[trigger] both@[p]) < columns,
                swept == both@.take(k as int),
                passes::walk(self.lower_turns(), later, swept),
                later[0] == middle,
                later.last() == *model,
            decreases both@.len() - k,
        {
            let j: usize = both[k];
            assert(both@[k as int] < columns);
            let ghost before = *model;
            self.remove_redundant_bound(model, j, Side::Lower, eager);
            k = k + 1;
            proof {
                assert(self.relax_turn(before, *model, j, Side::Lower));
                passes::walk_on(self.lower_turns(), later, swept, *model, j);
                later = later.push(*model);
                swept = swept.push(j);
                assert(swept =~= both@.take(k as int));
            }
        }
        proof {
            assert(swept =~= both@);
            assert(passes::walk(self.one_sided_turns(), states, list@));
            assert(passes::walk(self.lower_turns(), later, both@));
        }
    }
}

/// Both sides are finite.
pub open spec fn two_sided(b: Bounds) -> bool {
    b.lower.finite() && b.upper.finite()
}

impl<
    P: Fn(Real, Real) -> Real,
    T: Fn(Real, Real) -> Real,
    D: Fn(Real, Real) -> Real,
    H: Fn(Real, Real) -> Real,
> Arithmetic<P, T, D, H> {
    /// What a pass over the redundant bounds does.
    pub open spec fn remove_redundant_bounds_done(
        &self,
        before: Model,
        after: Model,
        eager: bool,
    ) -> bool {
        &&& after.wf()
        &&& after.bounds@.len() == before.bounds@.len()
        &&& exists|list: Seq<usize>, both: Seq<usize>, states: Seq<Model>, later: Seq<Model>|
                {
                    &&& both == list.filter(|j: usize| two_sided(before.bounds@[j as int]))
                    &&& is_agenda(list, before)
                    &&& #[trigger] passes::walk(self.one_sided_turns(), states, list)
                    &&& states[0] == before
                    &&& #[trigger] passes::walk(self.lower_turns(), later, both)
                    &&& later[0] == states.last()
                    &&& later.last() == after
                }
    }
}

} // verus!
