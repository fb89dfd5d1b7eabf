//! Passes over parallel columns and parallel rows.

use crate::arithmetic::Arithmetic;
use crate::grouping;
use crate::grouping::{candidate_groups, Key};
use crate::listing;
use crate::model::Model;
use crate::number::{zero, Real};
use crate::objective::Objective;
use crate::parallel;
use crate::parallel::Print;
use crate::passes::{self, Work};
use crate::sparsify;
use vstd::prelude::*;

verus! {

/// Two parallel columns compared.
#[derive(Clone, Copy, Debug, PartialEq, Eq, Structural)]
pub enum PairChoice {
    Skip,
    /// The first stands for both, with this ratio.
    Aggregate(Real),
    /// The objective falls forever along these changes of the two.
    Ray(Real, Real),
    FixFirst(Real),
    FixSecond(Real),
}

/// A print as one number.
pub open spec fn print_number(print: Print) -> int {
    print.0 * 0x1_0000_0000 + print.1
}

pub(crate) fn number_of(print: Print) -> (n: u128)
    ensures
        n == print_number(print),
        n < 0x1_0000_0000_0000_0000,
{
    print.0 as u128 * 0x1_0000_0000 + print.1 as u128
}

impl<
    P: Fn(Real, Real) -> Real,
    T: Fn(Real, Real) -> Real,
    D: Fn(Real, Real) -> Real,
    H: Fn(Real, Real) -> Real,
> Arithmetic<P, T, D, H> {
    /// The fingerprint of a line.
    pub open spec fn print_of<F: Fn(Real) -> u32>(&self, entries: Seq<(usize, Real)>, f: F) -> Print {
        self.printed(
            entries,
            sparsify::largest(entries, zero(), 0),
            entries[0].1.unit(),
            f,
            (parallel::SEED, parallel::SEED),
            0,
        )
    }

    /// The key of a live column with entries: the fingerprints of its
    /// constraints and of its curvature.
    pub open spec fn column_key<F: Fn(Real) -> u32>(
        &self,
        w: passes::Work,
        j: int,
        f: F,
    ) -> Option<Key> {
        let entries = listing::line(w.model.a@, true, j);
        let terms = listing::line(w.objective.p@, false, j);
        if w.model.alive@[j] && entries.len() > 0 {
            Some(
                (
                    print_number(self.print_of(entries, f)) as u128,
                    if terms.len() == 0 {
                        0
                    } else {
                        (1 + print_number(self.print_of(terms, f))) as u128
                    },
                ),
            )
        } else {
            None
        }
    }

    fn column_keys<F: Fn(Real) -> u32>(&self, model: &Model, objective: &Objective, f: &F) -> (keys:
        Vec<Option<Key>>)
        requires
            self.wf(),
            model.wf(),
            objective.wf(),
            objective.c@.len() == model.bounds@.len(),
            parallel::rounds(*f),
        ensures
            keys@ == Seq::new(
                model.bounds@.len(),
                |j: int| self.column_key(passes::work(*model, *objective), j, *f),
            ),
    {
        let mut keys: Vec<Option<Key>> = Vec::new();
        let mut j: usize = 0;
        while j < model.alive.len()
            invariant
                j <= model.alive@.len(),
                self.wf(),
                model.wf(),
                objective.wf(),
                objective.c@.len() == model.bounds@.len(),
                parallel::rounds(*f),
                keys@.len() == j,
                forall|t: int|
                    0 <= t < j ==> #[trigger] keys@[t] == self.column_key(
                        passes::work(*model, *objective),
                        t,
                        *f,
                    ),
            decreases model.alive@.len() - j,
        {
            let entries = model.column_entries(j);
            let terms = objective.p.row(j).to_vec();
            proof {
                listing::line_is(terms@, objective.p@, false, j as int);
            }
            let key = if model.alive[j] && entries.len() > 0 {
                let first: u128 = number_of(self.fingerprint(&entries, f));
                let second: u128 = if terms.len() == 0 {
                    0
                } else {
                    1 + number_of(self.fingerprint(&terms, f))
                };
                Some((first, second))
            } else {
                None
            };
            keys.push(key);
            j = j + 1;
        }
        assert(keys@ =~= Seq::new(
            model.bounds@.len(),
            |j: int| self.column_key(passes::work(*model, *objective), j, *f),
        ));
        keys
    }

    /// What becomes of two columns, the second divided by the first.
    pub open spec fn pair_choice(
        &self,
        w: passes::Work,
        j: usize,
        k: usize,
        tolerance: Real,
    ) -> PairChoice {
        match self.line_ratio(
            listing::line(w.model.a@, true, k as int),
            listing::line(w.model.a@, true, j as int),
            tolerance,
        ) {
            Some((ratio, true)) if self.flat_along(w.objective, j, k, ratio, zero()) => {
                let (c, b) = (w.objective.c@, w.model.bounds@);
                let delta = self.difference(c[k as int], self.product(ratio, c[j as int]));
                let dk = delta.unit().opposite();
                let dj = self.product(ratio.opposite(), dk);
                let bj = if zero().lt(dj) {
                    b[j as int].upper
                } else {
                    b[j as int].lower
                };
                let bk = if zero().lt(dk) {
                    b[k as int].upper
                } else {
                    b[k as int].lower
                };
                if self.aggregation(w, j, k, ratio, zero()) is Some {
                    PairChoice::Aggregate(ratio)
                } else if !delta.finite() || delta.zero() || bj.finite() && bk.finite() {
                    PairChoice::Skip
                } else if !bj.finite() && !bk.finite() {
                    PairChoice::Ray(dj, dk)
                } else if !bj.finite() {
                    PairChoice::FixSecond(bk)
                } else {
                    PairChoice::FixFirst(bj)
                }
            },
            _ => PairChoice::Skip,
        }
    }

    pub open spec fn pair_turn(
        &self,
        w: passes::Work,
        v: passes::Work,
        pair: (usize, usize),
        tolerance: Real,
    ) -> bool {
        let (j, k) = pair;
        if w.model.alive@[j as int] && w.model.alive@[k as int] {
            match self.pair_choice(w, j, k, tolerance) {
                PairChoice::Aggregate(ratio) => Self::aggregated(
                    w,
                    v,
                    j,
                    k,
                    ratio,
                    self.aggregation(w, j, k, ratio, zero())->Some_0,
                ),
                PairChoice::FixFirst(value) => self.fix_turn(w, v, j, value),
                PairChoice::FixSecond(value) => self.fix_turn(w, v, k, value),
                _ => v == w,
            }
        } else {
            v == w
        }
    }

    pub open spec fn pair_turns(&self, tolerance: Real) -> spec_fn(
        passes::Work,
        passes::Work,
        (usize, usize),
    ) -> bool {
        |w: passes::Work, v: passes::Work, pair: (usize, usize)|
            self.pair_turn(w, v, pair, tolerance)
    }

    /// Compare two live columns, and join them or fix one where that is safe.
    fn join_columns(
        &self,
        model: &mut Model,
        objective: &mut Objective,
        j: usize,
        k: usize,
        tolerance: Real,
        eager: bool,
    ) -> (r: Option<(Real, Real)>)
        requires
            self.wf(),
            old(model).wf(),
            old(objective).wf(),
            old(objective).c@.len() == old(model).bounds@.len(),
            j < old(model).bounds@.len(),
            k < old(model).bounds@.len(),
            j != k,
            old(model).alive@[j as int],
            old(model).alive@[k as int],
        ensures
            final(model).wf(),
            final(objective).wf(),
            final(objective).c@.len() == final(model).bounds@.len(),
            final(model).bounds@.len() == old(model).bounds@.len(),
            self.pair_turn(
                passes::work(*old(model), *old(objective)),
                passes::work(*final(model), *final(objective)),
                (j, k),
                tolerance,
            ),
            ({
                let choice = self.pair_choice(
                    passes::work(*old(model), *old(objective)),
                    j,
                    k,
                    tolerance,
                );
                match r {
                    Some((dj, dk)) => choice == PairChoice::Ray(dj, dk),
                    None => !(choice is Ray),
                }
            }),
    {
        let ghost w = passes::work(*model, *objective);
        let second = model.column_entries(k);
        let first = model.column_entries(j);
        let (ratio, exact): (Real, bool) = match self.proportional(&second, &first, tolerance) {
            Some(found) => found,
            None => {
                return None;
            },
        };
        if !exact || !self.parallel_curvature(objective, j, k, ratio, zero()) {
            return None;
        }
        if self.aggregate(model, objective, j, k, ratio, zero(), eager) {
            return None;
        }
        let delta = self.difference_of(objective.c[k], self.product_of(ratio, objective.c[j]));
        if !delta.is_finite() || delta.is_zero() {
            return None;
        }
        let dk = delta.signum().neg();
        let dj = self.product_of(ratio.neg(), dk);
        let bj = if zero().less(dj) {
            model.bounds[j].upper
        } else {
            model.bounds[j].lower
        };
        let bk = if zero().less(dk) {
            model.bounds[k].upper
        } else {
            model.bounds[k].lower
        };
        if !bj.is_finite() && !bk.is_finite() {
            return Some((dj, dk));
        }
        if !bj.is_finite() {
            assert(self.pair_choice(w, j, k, tolerance) == PairChoice::FixSecond(bk));
            self.fix_variable(model, objective, k, bk);
        } else if !bk.is_finite() {
            assert(self.pair_choice(w, j, k, tolerance) == PairChoice::FixFirst(bj));
            self.fix_variable(model, objective, j, bj);
        }
        None
    }
}

/// The pairs of a group that begin with item `a`.
pub open spec fn row_pairs(group: Seq<usize>, a: int) -> Seq<(usize, usize)> {
    Seq::new((group.len() - 1 - a) as nat, |t: int| (group[a], group[a + 1 + t]))
}

/// The pairs of a group that begin with one of its first `a` items.
pub open spec fn pairs_before(group: Seq<usize>, a: int) -> Seq<(usize, usize)>
    decreases a,
{
    if a <= 0 {
        Seq::empty()
    } else {
        pairs_before(group, a - 1) + row_pairs(group, a - 1)
    }
}

/// The pairs of the first `g` groups.
pub open spec fn pairs_of(groups: Seq<Vec<usize>>, g: int) -> Seq<(usize, usize)>
    decreases g,
{
    if g <= 0 {
        Seq::empty()
    } else {
        pairs_of(groups, g - 1) + pairs_before(groups[g - 1]@, groups[g - 1]@.len() as int)
    }
}

/// How many of the visited pairs were still there to compare.
pub open spec fn compared(states: Seq<passes::Work>, items: Seq<(usize, usize)>) -> nat
    decreases items.len(),
{
    if items.len() == 0 {
        0
    } else {
        let n = items.len() - 1;
        let alive = states[n].model.alive@;
        compared(states, items.drop_last()) + if alive[items[n].0 as int]
            && alive[items[n].1 as int] {
            1nat
        } else {
            0nat
        }
    }
}

proof fn compared_on(states: Seq<passes::Work>, next: passes::Work, items: Seq<(usize, usize)>)
    requires
        states.len() > items.len(),
    ensures
        compared(states.push(next), items) == compared(states, items),
    decreases items.len(),
{
    if items.len() > 0 {
        compared_on(states, next, items.drop_last());
    }
}

impl<
    P: Fn(Real, Real) -> Real,
    T: Fn(Real, Real) -> Real,
    D: Fn(Real, Real) -> Real,
    H: Fn(Real, Real) -> Real,
> Arithmetic<P, T, D, H> {
    /// Compare the columns whose fingerprints agree, pair by pair. Returns how
    /// many pairs were compared, or a direction in which the objective falls
    /// forever.
    #[verifier::rlimit(80)]
    pub fn parallel_columns<F: Fn(Real) -> u32>(
        &self,
        model: &mut Model,
        objective: &mut Objective,
        tolerance: Real,
        eager: bool,
        f: &F,
    ) -> (r: Result<u128, ((usize, Real), (usize, Real))>)
        requires
            self.wf(),
            old(model).wf(),
            old(objective).wf(),
            old(objective).c@.len() == old(model).bounds@.len(),
            parallel::rounds(*f),
        ensures
            final(model).wf(),
            final(objective).wf(),
            final(objective).c@.len() == final(model).bounds@.len(),
            exists|groups: Seq<Vec<usize>>, states: Seq<passes::Work>, items: Seq<(usize, usize)>|
                {
                    &&& #[trigger] self.columns_swept(
                        passes::work(*old(model), *old(objective)),
                        groups,
                        states,
                        items,
                        tolerance,
                        *f,
                    )
                    &&& states.last() == passes::work(*final(model), *final(objective))
                    &&& match r {
                        Ok(count) => items == pairs_of(groups, groups.len() as int) && count
                            == countable(compared(states, items)),
                        Err(((j, dj), (k, dk))) => {
                            &&& items.len() > 0
                            &&& items.last() == (j, k)
                            &&& self.pair_choice(states.last(), j, k, tolerance)
                                == PairChoice::Ray(dj, dk)
                        },
                    }
                },
    {
        let ghost w0 = passes::work(*model, *objective);
        let keys = self.column_keys(model, objective, f);
        let groups = candidate_groups(&keys);
        let ghost turns = self.pair_turns(tolerance);
        let ghost mut states: Seq<passes::Work> = seq![w0];
        let ghost mut items: Seq<(usize, usize)> = Seq::empty();
        let mut count: u128 = 0;
        let mut g: usize = 0;
        let columns: usize = model.bounds.len();
        proof {
            assert forall|h: int, a: int|
                0 <= h < groups@.len() && 0 <= a < groups@[h]@.len() implies (
            #[trigger] groups@[h]@[a]) < columns by {
                assert(grouping::is_group(groups@[h]@, keys@));
            }
            assert forall|h: int, a: int, b: int|
                0 <= h < groups@.len() && 0 <= a < b < groups@[h]@.len() implies (
            #[trigger] groups@[h]@[a]) < (#[trigger] groups@[h]@[b]) by {
                assert(grouping::is_group(groups@[h]@, keys@));
            }
            reveal(Arithmetic::columns_grouped);
            assert(self.columns_grouped(w0, groups@, *f));
        }
        assert(items =~= pairs_of(groups@, 0));
        while g < groups.len()
            invariant
                g <= groups@.len(),
                self.wf(),
                model.wf(),
                objective.wf(),
                objective.c@.len() == model.bounds@.len(),
                model.bounds@.len() == columns,
                w0 == passes::work(*old(model), *old(objective)),
                self.columns_grouped(w0, groups@, *f),
                forall|h: int, a: int|
                    0 <= h < groups@.len() && 0 <= a < groups@[h]@.len() ==> (
                    #[trigger] groups@[h]@[a]) < columns,
                forall|h: int, a: int, b: int|
                    0 <= h < groups@.len() && 0 <= a < b < groups@[h]@.len() ==> (
                    #[trigger] groups@[h]@[a]) < (#[trigger] groups@[h]@[b]),
                turns == self.pair_turns(tolerance),
                passes::walk(turns, states, items),
                states[0] == w0,
                states.last() == passes::work(*model, *objective),
                items == pairs_of(groups@, g as int),
                count == countable(compared(states, items)),
            decreases groups@.len() - g,
        {
            let ghost group = groups@[g as int]@;
            proof {
                assert(items + pairs_before(group, 0) =~= items);
            }
            let mut a: usize = 0;
            while a < groups[g].len()
                invariant
                    a <= group.len(),
                    g < groups@.len(),
                    group == groups@[g as int]@,
                    self.wf(),
                    model.wf(),
                    objective.wf(),
                    objective.c@.len() == model.bounds@.len(),
                    model.bounds@.len() == columns,
                    w0 == passes::work(*old(model), *old(objective)),
                    self.columns_grouped(w0, groups@, *f),
                    forall|h: int, a: int|
                        0 <= h < groups@.len() && 0 <= a < groups@[h]@.len() ==> (
                        #[trigger] groups@[h]@[a]) < columns,
                    forall|h: int, a: int, b: int|
                        0 <= h < groups@.len() && 0 <= a < b < groups@[h]@.len() ==> (
                        #[trigger] groups@[h]@[a]) < (#[trigger] groups@[h]@[b]),
                    turns == self.pair_turns(tolerance),
                    passes::walk(turns, states, items),
                    states[0] == w0,
                    states.last() == passes::work(*model, *objective),
                    items == pairs_of(groups@, g as int) + pairs_before(group, a as int),
                    count == countable(compared(states, items)),
                decreases group.len() - a,
            {
                let j: usize = groups[g][a];
                assert(groups@[g as int]@[a as int] < columns);
                let mut t: usize = a + 1;
                assert(items + row_pairs(group, a as int).take(0) =~= items);
                while t < groups[g].len()
                    invariant
                        a < t <= group.len(),
                        g < groups@.len(),
                        group == groups@[g as int]@,
                        j == group[a as int],
                        j < columns,
                        self.wf(),
                        model.wf(),
                        objective.wf(),
                        objective.c@.len() == model.bounds@.len(),
                        model.bounds@.len() == columns,
                        w0 == passes::work(*old(model), *old(objective)),
                        self.columns_grouped(w0, groups@, *f),
                        forall|h: int, a: int|
                            0 <= h < groups@.len() && 0 <= a < groups@[h]@.len() ==> (
                            #[trigger] groups@[h]@[a]) < columns,
                        forall|h: int, a: int, b: int|
                            0 <= h < groups@.len() && 0 <= a < b < groups@[h]@.len() ==> (
                            #[trigger] groups@[h]@[a]) < (#[trigger] groups@[h]@[b]),
                        turns == self.pair_turns(tolerance),
                        passes::walk(turns, states, items),
                        states[0] == w0,
                        states.last() == passes::work(*model, *objective),
                        items == pairs_of(groups@, g as int) + pairs_before(group, a as int)
                            + row_pairs(group, a as int).take(t - a - 1),
                        count == countable(compared(states, items)),
                    decreases group.len() - t,
                {
                    let k: usize = groups[g][t];
                    assert(groups@[g as int]@[t as int] < columns);
                    assert(groups@[g as int]@[a as int] < groups@[g as int]@[t as int]);
                    let ghost w = passes::work(*model, *objective);
                    let mut ray: Option<(Real, Real)> = None;
                    if model.alive[j] && model.alive[k] {
                        count = bump(count);
                        ray = self.join_columns(model, objective, j, k, tolerance, eager);
                    }
                    proof {
                        let v = passes::work(*model, *objective);
                        assert(self.pair_turn(w, v, (j, k), tolerance));
                        passes::walk_on(turns, states, items, v, (j, k));
                        compared_on(states, v, items);
                        let more = items.push((j, k));
                        assert(more.drop_last() =~= items);
                        states = states.push(v);
                        items = more;
                        assert(row_pairs(group, a as int).take(t - a) =~= row_pairs(
                            group,
                            a as int,
                        ).take(t - a - 1).push((j, k)));
                    }
                    if let Some((dj, dk)) = ray {
                        assert(self.columns_swept(w0, groups@, states, items, tolerance, *f));
                        return Err(((j, dj), (k, dk)));
                    }
                    t = t + 1;
                }
                assert(row_pairs(group, a as int).take(t - a - 1) =~= row_pairs(group, a as int));
                a = a + 1;
                assert(items =~= pairs_of(groups@, g as int) + pairs_before(group, a as int));
            }
            g = g + 1;
        }
        assert(self.columns_swept(w0, groups@, states, items, tolerance, *f));
        Ok(count)
    }

    /// The walk over the pairs of columns whose fingerprints agree.
    pub open spec fn columns_swept<F: Fn(Real) -> u32>(
        &self,
        w: passes::Work,
        groups: Seq<Vec<usize>>,
        states: Seq<passes::Work>,
        items: Seq<(usize, usize)>,
        tolerance: Real,
        f: F,
    ) -> bool {
        &&& self.columns_grouped(w, groups, f)
        &&& passes::walk(self.pair_turns(tolerance), states, items)
        &&& states[0] == w
    }

    /// The groups of columns whose fingerprints agree.
    #[verifier::opaque]
    pub open spec fn columns_grouped<F: Fn(Real) -> u32>(
        &self,
        w: passes::Work,
        groups: Seq<Vec<usize>>,
        f: F,
    ) -> bool {
        grouping::are_groups(
            groups,
            Seq::new(w.model.bounds@.len(), |j: int| self.column_key(w, j, f)),
        )
    }
}

/// A number up to the largest that is counted to.
pub open spec fn countable(n: nat) -> u128 {
    if n > u128::MAX {
        u128::MAX
    } else {
        n as u128
    }
}

fn bump(n: u128) -> (m: u128)
    ensures
        forall|k: nat| n == #[trigger] countable(k) ==> m == countable(k + 1),
{
    if n < u128::MAX {
        n + 1
    } else {
        n
    }
}

} // verus!
