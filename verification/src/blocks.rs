//! The pass over cone blocks.

use crate::arithmetic::Arithmetic;
use crate::bounds::RowDomain;
use crate::classify;
use crate::classify::{Growth, Membership};
use crate::cone;
use crate::cone::Cone;
use crate::cones;
use crate::linked;
use crate::linked::{Entries, NONE};
use crate::model::Model;
use crate::number::Real;
use crate::pair;
use crate::passes;
use crate::simplify;
use crate::simplify::Outcome;
use vstd::prelude::*;

verus! {

/// The counters leave room for the changes to a block, and its coordinates match
/// its cone.
pub open spec fn fits(model: Model, block: usize) -> bool {
    let count = simplify::live(model, block).len();
    &&& simplify::shaped(model.cones@[block as int], count)
    &&& model.revision + 2 * count + 1 <= usize::MAX
    &&& model.cones@.len() + count < usize::MAX
}

/// The last two coordinates of a second-order cone can be replaced.
pub open spec fn pair_fits(model: Model, head: usize, tail: usize) -> bool {
    &&& head < model.rows@.len()
    &&& tail < model.rows@.len()
    &&& head != tail
    &&& model.rows@[head as int] is Cone
    &&& model.rows@[tail as int] is Cone
    &&& model.revision + 2 <= usize::MAX
    &&& model.a@.dom().len() + 2 * linked::line_items(model.a@, false, head as int).len() + 2
        * linked::line_items(model.a@, false, tail as int).len() <= NONE
}

/// The right-hand sides of coordinates.
pub open spec fn sides_of(model: Model, rows: Seq<usize>) -> Seq<Real> {
    Seq::new(rows.len(), |k: int| cones::rhs_of(model.rows@[rows[k] as int]))
}

/// No coordinate depends on a variable.
pub open spec fn constant(model: Model, rows: Seq<usize>) -> bool {
    forall|k: int|
        0 <= k < rows.len() ==> cones::constant_row(model.a@, (#[trigger] rows[k]) as int)
}

/// The multipliers of a constant block outside its cone.
pub open spec fn separating(rows: Seq<usize>, dual: Seq<Real>) -> Seq<(usize, Real)> {
    Seq::new(
        if rows.len() < dual.len() {
            rows.len()
        } else {
            dual.len()
        },
        |k: int| (rows[k], dual[k].opposite()),
    )
}

fn separate(rows: &Vec<usize>, dual: &Vec<Real>) -> (list: Entries)
    ensures
        list@ == separating(rows@, dual@),
{
    let mut list: Entries = Vec::new();
    let mut k: usize = 0;
    while k < rows.len() && k < dual.len()
        invariant
            k <= rows@.len(),
            k <= dual@.len(),
            list@.len() == k,
            forall|t: int| 0 <= t < k ==> #[trigger] list@[t] == (rows@[t], dual@[t].opposite()),
        decreases rows@.len() - k,
    {
        list.push((rows[k], dual[k].neg()));
        k = k + 1;
    }
    assert(list@ =~= separating(rows@, dual@));
    list
}

/// A number of coordinates is the size of a cone.
pub(crate) fn has_size(cone: Cone, count: usize) -> (b: bool)
    ensures
        b == (count == cone.size()),
{
    match cone {
        Cone::Zero(n) => count == n,
        Cone::Nonnegative(n) => count == n,
        Cone::SecondOrder(n) => count == n,
        Cone::RotatedSecondOrder(n) => count == n,
        Cone::PositiveSemidefinite { order } => is_triangle(order, count),
        Cone::Exponential => count == 3,
        Cone::Power { .. } => count == 3,
        Cone::Opaque { dimension, .. } => count == dimension,
    }
}

/// A cone can be measured at so many coordinates.
pub open spec fn measures(cone: Cone, count: nat) -> bool {
    &&& cone is SecondOrder ==> count >= 1
    &&& cone is RotatedSecondOrder ==> count >= 2
}

pub(crate) fn can_measure(cone: Cone, count: usize) -> (b: bool)
    ensures
        b == measures(cone, count as nat),
{
    match cone {
        Cone::SecondOrder(_) => count >= 1,
        Cone::RotatedSecondOrder(_) => count >= 2,
        _ => true,
    }
}

fn is_triangle(order: usize, count: usize) -> (b: bool)
    ensures
        b == (count == cone::triangle(order as int)),
{
    proof {
        assert(0 <= order * (order + 1) <= u128::MAX) by (nonlinear_arith)
            requires
                0 <= order <= 0xffff_ffff_ffff_ffff,
        ;
    }
    let n: u128 = order as u128 * (order as u128 + 1) / 2;
    count as u128 == n
}

fn has_shape(cone: Cone, count: usize) -> (b: bool)
    ensures
        b == simplify::shaped(cone, count as nat),
{
    match cone {
        Cone::SecondOrder(_) => count >= 1,
        Cone::RotatedSecondOrder(_) => count >= 2,
        Cone::PositiveSemidefinite { order } => is_triangle(order, count),
        _ => true,
    }
}

fn pair_has_room(model: &Model, head: usize, tail: usize) -> (b: bool)
    requires
        model.wf(),
    ensures
        b == pair_fits(*model, head, tail),
{
    if head >= model.rows.len() || tail >= model.rows.len() || head == tail || model.revision
        > usize::MAX - 2 {
        return false;
    }
    let cones = match (model.rows[head], model.rows[tail]) {
        (RowDomain::Cone { .. }, RowDomain::Cone { .. }) => true,
        _ => false,
    };
    let (n, h, t): (usize, usize, usize) = (
        model.a.nnz(),
        model.a.row(head).len(),
        model.a.row(tail).len(),
    );
    cones && n as u128 + 2 * (h as u128) + 2 * (t as u128) <= NONE as u128
}

/// The last two coordinates of a second-order cone became two linear rows, or
/// stayed where a result overflows.
pub open spec fn pair_turn<F: Fn(Real, Real) -> Real>(
    before: Model,
    after: Model,
    head: usize,
    tail: usize,
    plus: F,
) -> bool {
    if pair_fits(before, head, tail) {
        exists|
            sum: Seq<(usize, Real)>,
            difference: Seq<(usize, Real)>,
            upper: Real,
            lower: Real,
        |
            {
                &&& #[trigger] pair::halves(
                    sum,
                    difference,
                    upper,
                    lower,
                    before,
                    head,
                    tail,
                    plus,
                )
                &&& if pair::all_finite(sum) && pair::all_finite(difference) && upper.finite()
                    && lower.finite() {
                    pair::paired(after, before, head, tail, sum, difference, upper, lower)
                } else {
                    after == before
                }
            }
    } else {
        after == before
    }
}

impl<
    P: Fn(Real, Real) -> Real,
    T: Fn(Real, Real) -> Real,
    D: Fn(Real, Real) -> Real,
    H: Fn(Real, Real) -> Real,
> Arithmetic<P, T, D, H> {
    /// Where the constant right-hand sides of a block stand, if all its
    /// coordinates are constant.
    pub open spec fn standing<L: Fn(Real) -> Real, E: Fn(Real) -> Real>(
        &self,
        growth: Growth<L, E>,
        model: Model,
        block: usize,
        feasibility: Real,
    ) -> classify::Verdict {
        let rows = simplify::live(model, block);
        let cone = model.cones@[block as int];
        if constant(model, rows) && rows.len() == cone.size() {
            self.classified(growth, cone, sides_of(model, rows), feasibility)
        } else {
            classify::Verdict::Unknown
        }
    }

    /// What becomes of a block off the queue; a proof of infeasibility where
    /// there is one.
    pub open spec fn block_step<L: Fn(Real) -> Real, E: Fn(Real) -> Real>(
        &self,
        growth: Growth<L, E>,
        taken: Model,
        middle: Model,
        after: Model,
        block: usize,
        feasibility: Real,
        outcome: Outcome,
        proof_of: Option<Seq<(usize, Real)>>,
    ) -> bool {
        let rows = simplify::live(taken, block);
        match self.standing(growth, taken, block, feasibility) {
            classify::Verdict::Inside => cones::dropped(after, taken, rows) && proof_of is None,
            classify::Verdict::Outside(dual) => after == taken && proof_of == Some(
                separating(rows, dual),
            ),
            classify::Verdict::Unknown => {
                &&& simplify::stepped(middle, taken, block, rows, feasibility, outcome)
                &&& match outcome {
                    Outcome::Settled => after == middle && proof_of is None,
                    Outcome::Separated { head } => after == middle && proof_of == Some(
                        seq![(head, crate::number::minus_one())],
                    ),
                    Outcome::Pair { head, tail } => proof_of is None && pair_turn(
                        middle,
                        after,
                        head,
                        tail,
                        self.plus,
                    ),
                }
            },
        }
    }

    /// The next block of the queue that has something to simplify.
    pub open spec fn block_turn<L: Fn(Real) -> Real, E: Fn(Real) -> Real>(
        &self,
        growth: Growth<L, E>,
        before: Model,
        after: Model,
        block: usize,
        feasibility: Real,
        proof_of: Option<Seq<(usize, Real)>>,
    ) -> bool {
        exists|taken: Model, middle: Model, outcome: Outcome|
            {
                &&& #[trigger] self.block_step(
                    growth,
                    taken,
                    middle,
                    after,
                    block,
                    feasibility,
                    outcome,
                    proof_of,
                )
                &&& taken == (Model { changed_cones: taken.changed_cones, ..before })
                &&& next_taken(before, taken.changed_cones@, block)
            }
    }

    pub open spec fn block_turns<L: Fn(Real) -> Real, E: Fn(Real) -> Real>(
        &self,
        growth: Growth<L, E>,
        feasibility: Real,
    ) -> spec_fn(Model, Model, usize) -> bool {
        |before: Model, after: Model, block: usize|
            self.block_turn(growth, before, after, block, feasibility, None)
    }

    fn settle_block<L: Fn(Real) -> Real, E: Fn(Real) -> Real>(
        &self,
        model: &mut Model,
        block: usize,
        rows: &Vec<usize>,
        growth: &Growth<L, E>,
        feasibility: Real,
    ) -> (r: (Option<Entries>, Ghost<Model>, Ghost<Outcome>))
        requires
            self.wf(),
            growth.wf(),
            pair::accepts(&self.plus),
            old(model).wf(),
            simplify::blocks_wf(*old(model)),
            simplify::active(*old(model), block),
            rows@ == simplify::live(*old(model), block),
            fits(*old(model), block),
        ensures
            final(model).wf(),
            simplify::blocks_wf(*final(model)),
            self.block_step(
                *growth,
                *old(model),
                r.1@,
                *final(model),
                block,
                feasibility,
                r.2@,
                list_of(r.0),
            ),
    {
        let ghost start = *model;
        proof {
            let listed = model.cone_rows@[block as int]@;
            assert forall|k: int| 0 <= k < listed.len() implies (#[trigger] listed[k])
                < model.rows@.len() by {
                assert(model.cone_rows@[block as int]@[k] < model.rows@.len());
            }
            simplify::live_rows_are_listed(model.rows@, listed, block);
            assert(cones::coordinates(*model, rows@));
        }
        let cone = model.cones[block];
        if model.all_constant(rows) && has_size(cone, rows.len()) {
            let mut sides: Vec<Real> = Vec::new();
            let mut k: usize = 0;
            while k < rows.len()
                invariant
                    k <= rows@.len(),
                    sides@.len() == k,
                    forall|t: int|
                        0 <= t < rows@.len() ==> (#[trigger] rows@[t]) < model.rows@.len(),
                    forall|t: int|
                        0 <= t < k ==> #[trigger] sides@[t] == cones::rhs_of(
                            model.rows@[rows@[t] as int],
                        ),
                decreases rows@.len() - k,
            {
                sides.push(model.cone_rhs(rows[k]));
                k = k + 1;
            }
            assert(sides@ =~= sides_of(*model, rows@));
            match self.classify(growth, cone, &sides, feasibility) {
                Membership::Inside => {
                    model.drop_rows(rows);
                    let none: Option<Entries> = None;
                    assert(list_of(none) is None);
                    return (none, Ghost(start), Ghost(Outcome::Settled));
                },
                Membership::Outside(dual) => {
                    let list = separate(rows, &dual);
                    let found: Option<Entries> = Some(list);
                    assert(list_of(found) == Some(separating(rows@, dual@)));
                    return (found, Ghost(start), Ghost(Outcome::Settled));
                },
                Membership::Unknown => {},
            }
        }
        let outcome = model.simplify_block(block, rows, feasibility);
        let ghost middle = *model;
        let mut found: Option<Entries> = None;
        match outcome {
            Outcome::Settled => {},
            Outcome::Separated { head } => {
                let mut list: Entries = Vec::new();
                list.push((head, crate::number::minus_one()));
                assert(list@ =~= seq![(head, crate::number::minus_one())]);
                found = Some(list);
            },
            Outcome::Pair { head, tail } => {
                if pair_has_room(model, head, tail) {
                    model.split_pair(head, tail, &self.plus);
                }
                assert(pair_turn(middle, *model, head, tail, self.plus));
            },
        }
        (found, Ghost(middle), Ghost(outcome))
    }

    /// A step raises the revision or leaves the queue alone.
    proof fn steps_progress<L: Fn(Real) -> Real, E: Fn(Real) -> Real>(
        &self,
        growth: Growth<L, E>,
        taken: Model,
        middle: Model,
        after: Model,
        block: usize,
        feasibility: Real,
        outcome: Outcome,
        proof_of: Option<Seq<(usize, Real)>>,
    )
        requires
            self.block_step(growth, taken, middle, after, block, feasibility, outcome, proof_of),
            simplify::shaped(
                taken.cones@[block as int],
                simplify::live(taken, block).len(),
            ),
        ensures
            after.revision > taken.revision || after.revision == taken.revision
                && after.changed_cones@ == taken.changed_cones@,
    {
    }

    /// Simplify the waiting cone blocks, or prove one of them infeasible. Returns
    /// false where a block does not match its cone or a counter is full; the blocks
    /// before it go on waiting.
    pub fn simplify_cones<L: Fn(Real) -> Real, E: Fn(Real) -> Real>(
        &self,
        model: &mut Model,
        growth: &Growth<L, E>,
        feasibility: Real,
    ) -> (r: Result<bool, (usize, Entries)>)
        requires
            self.wf(),
            growth.wf(),
            pair::accepts(&self.plus),
            old(model).wf(),
            simplify::blocks_wf(*old(model)),
        ensures
            self.simplify_cones_done(
                *old(model),
                *final(model),
                *growth,
                feasibility,
                r,
            ),
    {
        let ghost turns = self.block_turns(*growth, feasibility);
        let ghost mut states: Seq<Model> = seq![*model];
        let ghost mut items: Seq<usize> = Seq::empty();
        loop
            invariant
                self.wf(),
                growth.wf(),
                pair::accepts(&self.plus),
                model.wf(),
                simplify::blocks_wf(*model),
                turns == self.block_turns(*growth, feasibility),
                passes::walk(turns, states, items),
                states[0] == *old(model),
                states.last() == *model,
                model.bounds@.len() == old(model).bounds@.len(),
            decreases usize::MAX - model.revision, model.changed_cones@.len(),
        {
            let ghost before = *model;
            let block: usize = match model.take_cone() {
                Some(block) => block,
                None => {
                    return Ok(true);
                },
            };
            proof {
                let n = choose|n: int|
                    {
                        &&& 0 <= n < before.changed_cones@.len()
                        &&& before.changed_cones@[n] == block
                        &&& simplify::active(before, block)
                        &&& model.changed_cones@ == #[trigger] before.changed_cones@.take(n)
                        &&& forall|k: int|
                            n < k < before.changed_cones@.len() ==> !simplify::active(
                                before,
                                #[trigger] before.changed_cones@[k],
                            )
                    };
                assert(is_next(before, n));
                assert(next_taken(before, model.changed_cones@, block));
                assert(simplify::live(*model, block) == simplify::live(before, block));
            }
            let rows = model.live_rows(block);
            let count: usize = rows.len();
            if !has_shape(model.cones[block], count) || model.revision as u128 + 2 * (
            count as u128) + 1 > usize::MAX as u128 || model.cones.len() as u128 + count as u128
                >= usize::MAX as u128 {
                assert(stuck(before, model.changed_cones@, block));
                return Ok(false);
            }
            let ghost taken = *model;
            let (found, Ghost(middle), Ghost(outcome)): (
                Option<Entries>,
                Ghost<Model>,
                Ghost<Outcome>,
            ) = self.settle_block(model, block, &rows, growth, feasibility);
            let ghost listed = list_of(found);
            assert(self.block_step(
                *growth,
                taken,
                middle,
                *model,
                block,
                feasibility,
                outcome,
                listed,
            ));
            assert(self.block_turn(*growth, before, *model, block, feasibility, listed));
            proof {
                self.steps_progress(
                    *growth,
                    taken,
                    middle,
                    *model,
                    block,
                    feasibility,
                    outcome,
                    listed,
                );
            }
            if let Some(list) = found {
                assert(listed == Some(list@));
                assert(self.block_turn(
                    *growth,
                    states.last(),
                    *model,
                    block,
                    feasibility,
                    Some(list@),
                ));
                return Err((block, list));
            }
            proof {
                assert(listed is None);
                passes::walk_on(turns, states, items, *model, block);
                states = states.push(*model);
                items = items.push(block);
            }
        }
    }
}

/// The block at place `n` is the last waiting one that has something to simplify.
pub open spec fn is_next(model: Model, n: int) -> bool {
    &&& 0 <= n < model.changed_cones@.len()
    &&& simplify::active(model, model.changed_cones@[n])
    &&& forall|k: int|
        n < k < model.changed_cones@.len() ==> !simplify::active(
            model,
            #[trigger] model.changed_cones@[k],
        )
}

/// The last waiting block that has something to simplify is taken, and those
/// before it go on waiting.
pub open spec fn next_taken(model: Model, waiting: Seq<usize>, block: usize) -> bool {
    exists|n: int| #[trigger]
        is_next(model, n) && block == model.changed_cones@[n] && waiting
            == model.changed_cones@.take(n)
}

/// The next block to be simplified does not fit.
pub open spec fn stuck(last: Model, waiting: Seq<usize>, block: usize) -> bool {
    next_taken(last, waiting, block) && !fits(last, block)
}

/// How the pass ends: nothing waits that could be simplified, or the next block
/// does not fit.
pub open spec fn stops(last: Model, waiting: Seq<usize>, done: bool) -> bool {
    if done {
        &&& waiting.len() == 0
        &&& forall|k: int|
            0 <= k < last.changed_cones@.len() ==> !simplify::active(
                last,
                #[trigger] last.changed_cones@[k],
            )
    } else {
        exists|block: usize| #[trigger] stuck(last, waiting, block)
    }
}

pub open spec fn list_of(list: Option<Entries>) -> Option<Seq<(usize, Real)>> {
    match list {
        Some(l) => Some(l@),
        None => None,
    }
}

impl<
    P: Fn(Real, Real) -> Real,
    T: Fn(Real, Real) -> Real,
    D: Fn(Real, Real) -> Real,
    H: Fn(Real, Real) -> Real,
> Arithmetic<P, T, D, H> {
    /// What a pass over the changed cones does and reports.
    pub open spec fn simplify_cones_done<L: Fn(Real) -> Real, E: Fn(Real) -> Real>(
        &self,
        before: Model,
        after: Model,
        growth: Growth<L, E>,
        feasibility: Real,
        r: Result<bool, (usize, Entries)>,
    ) -> bool {
        &&& after.wf()
        &&& after.bounds@.len() == before.bounds@.len()
        &&& simplify::blocks_wf(after)
        &&& exists|states: Seq<Model>, items: Seq<usize>|
                {
                    let last = states.last();
                    &&& #[trigger] passes::walk(
                        self.block_turns(growth, feasibility),
                        states,
                        items,
                    )
                    &&& states[0] == before
                    &&& match r {
                        Ok(done) => {
                            &&& after == (Model {
                                changed_cones: after.changed_cones,
                                ..last
                            })
                            &&& stops(last, after.changed_cones@, done)
                        },
                        Err((block, found)) => self.block_turn(
                            growth,
                            last,
                            after,
                            block,
                            feasibility,
                            Some(found@),
                        ),
                    }
                }
    }
}

} // verus!
