//! Working out what a substitution does to a quadratic objective.

use crate::arithmetic::Arithmetic;
use crate::linked::{self, Entries, NONE};
use crate::merge;
use crate::number::{zero, Real};
use crate::objective::{self, Affected, Count, Failure, Objective, Plan};
use crate::symmetric;
use crate::tape::{Gradient, HALF};
use vstd::prelude::*;

verus! {

/// What a plan says.
pub ghost struct Outline {
    pub constant: Real,
    pub linear: Seq<(usize, Real)>,
    pub quadratic: Seq<(usize, usize, Real)>,
}

impl<
    P: Fn(Real, Real) -> Real,
    T: Fn(Real, Real) -> Real,
    D: Fn(Real, Real) -> Real,
    H: Fn(Real, Real) -> Real,
> Arithmetic<P, T, D, H> {
    /// The linear coefficient of an affected variable.
    pub open spec fn linear_value(
        &self,
        c: Seq<Real>,
        k: usize,
        diagonal: Real,
        offset: Real,
        a: Affected,
    ) -> Real {
        let own = c[a.column as int];
        let bent = if a.curved {
            self.sum(own, self.product(offset, a.curvature))
        } else {
            own
        };
        if a.sloped {
            self.sum(
                bent,
                self.product(self.sum(c[k as int], self.product(diagonal, offset)), a.slope),
            )
        } else {
            bent
        }
    }

    pub open spec fn linear_values(
        &self,
        c: Seq<Real>,
        k: usize,
        diagonal: Real,
        offset: Real,
        list: Seq<Affected>,
    ) -> Seq<(usize, Real)> {
        Seq::new(
            list.len(),
            |i: int| (list[i].column, self.linear_value(c, k, diagonal, offset, list[i])),
        )
    }

    /// The Hessian coefficient of a pair of affected variables.
    pub open spec fn pair_value(
        &self,
        before: Real,
        diagonal: Real,
        a: Affected,
        b: Affected,
    ) -> Real {
        self.sum(
            self.sum(
                self.sum(before, self.product(a.curvature, b.slope)),
                self.product(a.slope, b.curvature),
            ),
            self.product(self.product(diagonal, a.slope), b.slope),
        )
    }

    /// One pair, in the pass over missing or over stored coefficients.
    pub open spec fn pair_step(
        &self,
        p: Map<(int, int), Real>,
        list: Seq<Affected>,
        diagonal: Real,
        pair: (usize, usize),
        missing: bool,
        count: Count,
        max_fill: nat,
    ) -> Result<Count, Failure> {
        let (a, b) = (list[pair.0 as int], list[pair.1 as int]);
        let before = symmetric::value_at(p, a.column as int, b.column as int);
        let value = self.pair_value(before, diagonal, a, b);
        let places: nat = if pair.0 == pair.1 {
            1
        } else {
            2
        };
        if before.zero() != missing {
            Ok(count)
        } else if !value.finite() {
            Err(Failure::Numerical)
        } else if before.zero() && !value.zero() && count.added + places > max_fill {
            Err(Failure::QuadraticFill)
        } else {
            Ok(
                Count {
                    added: if before.zero() && !value.zero() {
                        count.added + places
                    } else {
                        count.added
                    },
                    removed: if !before.zero() && value.zero() {
                        count.removed + places
                    } else {
                        count.removed
                    },
                    list: if value.same(before) {
                        count.list
                    } else {
                        count.list.push((a.column, b.column, value))
                    },
                },
            )
        }
    }

    /// One pass over the pairs. It stops at the first refusal.
    pub open spec fn pair_pass(
        &self,
        p: Map<(int, int), Real>,
        list: Seq<Affected>,
        diagonal: Real,
        pairs: Seq<(usize, usize)>,
        missing: bool,
        count: Count,
        max_fill: nat,
    ) -> Result<Count, Failure>
        decreases pairs.len(),
    {
        if pairs.len() == 0 {
            Ok(count)
        } else {
            match self.pair_pass(
                p,
                list,
                diagonal,
                pairs.drop_last(),
                missing,
                count,
                max_fill,
            ) {
                Ok(before) => self.pair_step(
                    p,
                    list,
                    diagonal,
                    pairs.last(),
                    missing,
                    before,
                    max_fill,
                ),
                Err(e) => Err(e),
            }
        }
    }

    /// A refusal in the first pairs is the refusal of the pass.
    proof fn refusal_stays(
        &self,
        p: Map<(int, int), Real>,
        list: Seq<Affected>,
        diagonal: Real,
        pairs: Seq<(usize, usize)>,
        missing: bool,
        count: Count,
        max_fill: nat,
        n: int,
    )
        requires
            0 <= n <= pairs.len(),
            self.pair_pass(p, list, diagonal, pairs.take(n), missing, count, max_fill) is Err,
        ensures
            self.pair_pass(p, list, diagonal, pairs, missing, count, max_fill) == self.pair_pass(
                p,
                list,
                diagonal,
                pairs.take(n),
                missing,
                count,
                max_fill,
            ),
        decreases pairs.len(),
    {
        if n < pairs.len() {
            assert(pairs.drop_last().take(n) =~= pairs.take(n));
            self.refusal_stays(
                p,
                list,
                diagonal,
                pairs.drop_last(),
                missing,
                count,
                max_fill,
                n,
            );
        } else {
            assert(pairs.take(n) =~= pairs);
        }
    }

    /// The constant of the objective after a substitution.
    pub open spec fn new_constant(
        &self,
        constant: Real,
        ck: Real,
        diagonal: Real,
        offset: Real,
    ) -> Real {
        self.sum(
            self.sum(constant, self.product(ck, offset)),
            self.product(
                self.product(self.product(Real { bits: HALF }, diagonal), offset),
                offset,
            ),
        )
    }

    /// Both passes, missing coefficients first: fill is refused before updates
    /// of stored coefficients are worked out.
    pub open spec fn curvature_plan(
        &self,
        p: Map<(int, int), Real>,
        list: Seq<Affected>,
        diagonal: Real,
        own: nat,
        max_fill: nat,
    ) -> Result<Count, Failure> {
        let removed = (2 * own - if diagonal.zero() {
            0int
        } else {
            1int
        }) as nat;
        let count = Count { added: 0, removed, list: Seq::empty() };
        let pairs = if own == 0 {
            Seq::empty()
        } else {
            objective::all_pairs(list, diagonal, list.len())
        };
        match self.pair_pass(p, list, diagonal, pairs, true, count, max_fill) {
            Ok(middle) => self.pair_pass(p, list, diagonal, pairs, false, middle, max_fill),
            Err(e) => Err(e),
        }
    }

    /// What a substitution of variable `k` does, or why it is refused. `terms`
    /// lists the row of the variable in the Hessian.
    pub open spec fn planned(
        &self,
        objective: Objective,
        terms: Seq<(usize, Real)>,
        k: usize,
        offset: Real,
        slopes: Seq<(usize, Real)>,
        max_fill: nat,
        allow_growth: bool,
    ) -> Result<Outline, Failure> {
        let p = objective.p@;
        let c = objective.c@;
        let diagonal = symmetric::value_at(p, k as int, k as int);
        let constant = self.new_constant(objective.constant, c[k as int], diagonal, offset);
        let list = objective::affected(objective::others(terms, k), slopes);
        let linear = self.linear_values(c, k, diagonal, offset, list);
        if !constant.finite() || !offset.finite() {
            Err(Failure::Numerical)
        } else {
            match self.curvature_plan(p, list, diagonal, terms.len(), max_fill) {
                Err(e) => Err(e),
                Ok(count) => if !allow_growth && count.added > count.removed {
                    Err(Failure::HessianGrowth)
                } else if !objective::all_finite(linear) {
                    Err(Failure::Numerical)
                } else {
                    Ok(Outline { constant, linear, quadratic: count.list })
                },
            }
        }
    }

    /// The plan itself never runs out of storage.
    pub(crate) proof fn plan_never_full(
        &self,
        objective: Objective,
        terms: Seq<(usize, Real)>,
        k: usize,
        offset: Real,
        slopes: Seq<(usize, Real)>,
        max_fill: nat,
        allow_growth: bool,
    )
        ensures
            self.planned(objective, terms, k, offset, slopes, max_fill, allow_growth) != Err::<
                Outline,
                Failure,
            >(Failure::Capacity),
    {
        let diagonal = symmetric::value_at(objective.p@, k as int, k as int);
        let list = objective::affected(objective::others(terms, k), slopes);
        let pairs = if terms.len() == 0 {
            Seq::empty()
        } else {
            objective::all_pairs(list, diagonal, list.len())
        };
        let removed = (2 * terms.len() - if diagonal.zero() {
            0int
        } else {
            1int
        }) as nat;
        let count = Count { added: 0, removed, list: Seq::empty() };
        self.pass_never_full(objective.p@, list, diagonal, pairs, true, count, max_fill);
        if let Ok(middle) = self.pair_pass(
            objective.p@,
            list,
            diagonal,
            pairs,
            true,
            count,
            max_fill,
        ) {
            self.pass_never_full(objective.p@, list, diagonal, pairs, false, middle, max_fill);
        }
    }

    proof fn pass_never_full(
        &self,
        p: Map<(int, int), Real>,
        list: Seq<Affected>,
        diagonal: Real,
        pairs: Seq<(usize, usize)>,
        missing: bool,
        count: Count,
        max_fill: nat,
    )
        ensures
            self.pair_pass(p, list, diagonal, pairs, missing, count, max_fill) != Err::<
                Count,
                Failure,
            >(Failure::Capacity),
        decreases pairs.len(),
    {
        if pairs.len() > 0 {
            self.pass_never_full(
                p,
                list,
                diagonal,
                pairs.drop_last(),
                missing,
                count,
                max_fill,
            );
        }
    }

    fn pair_value_of(&self, before: Real, diagonal: Real, a: Affected, b: Affected) -> (v: Real)
        requires
            self.wf(),
        ensures
            v == self.pair_value(before, diagonal, a, b),
    {
        let first = self.sum_of(before, self.product_of(a.curvature, b.slope));
        let second = self.sum_of(first, self.product_of(a.slope, b.curvature));
        let both = self.product_of(self.product_of(diagonal, a.slope), b.slope);
        self.sum_of(second, both)
    }

    /// One pair of a pass. A deadline may end it early, at any multiple of
    /// 1024 visits.
    fn visit<E: Fn() -> bool>(
        &self,
        objective: &Objective,
        list: &Vec<Affected>,
        diagonal: Real,
        pair: (usize, usize),
        missing: bool,
        quadratic: &mut Vec<(usize, usize, Real)>,
        fill: (u128, u128),
        max_fill: usize,
        visits: u128,
        expired: &E,
    ) -> (r: Result<(u128, u128), Failure>)
        requires
            self.wf(),
            objective.wf(),
            call_requires(*expired, ()),
            fill.0 + fill.1 + 2 <= u128::MAX,
            pair.0 < list@.len(),
            pair.1 < list@.len(),
            forall|a: int|
                0 <= a < list@.len() ==> (#[trigger] list@[a]).column < objective.c@.len(),
            updates_fit(old(quadratic)@, objective.c@.len()),
        ensures
            updates_fit(final(quadratic)@, objective.c@.len()),
            ({
                let goal = self.pair_step(
                    objective.p@,
                    list@,
                    diagonal,
                    pair,
                    missing,
                    Count {
                        added: fill.0 as nat,
                        removed: fill.1 as nat,
                        list: old(quadratic)@,
                    },
                    max_fill as nat,
                );
                match r {
                    Ok((added, removed)) => {
                        &&& goal == Ok::<Count, Failure>(
                            Count {
                                added: added as nat,
                                removed: removed as nat,
                                list: final(quadratic)@,
                            },
                        )
                        &&& added + removed <= fill.0 + fill.1 + 2
                    },
                    Err(Failure::Deadline) => call_ensures(*expired, (), true),
                    Err(e) => goal == Err::<Count, Failure>(e),
                }
            }),
    {
        if visits % 1024 == 0 && expired() {
            return Err(Failure::Deadline);
        }
        let (j, l): (usize, usize) = pair;
        let (mut added, mut removed): (u128, u128) = fill;
        let (a, b): (Affected, Affected) = (list[j], list[l]);
        assert(list@[j as int].column < objective.c@.len() && list@[l as int].column
            < objective.c@.len());
        let before = objective.coefficient(a.column, b.column);
        if before.is_zero() == missing {
            let value = self.pair_value_of(before, diagonal, a, b);
            if !value.is_finite() {
                return Err(Failure::Numerical);
            }
            let places: u128 = if j == l {
                1
            } else {
                2
            };
            if before.is_zero() && !value.is_zero() {
                if added + places > max_fill as u128 {
                    return Err(Failure::QuadraticFill);
                }
                added = added + places;
            } else if !before.is_zero() && value.is_zero() {
                removed = removed + places;
            }
            if !value.equals(before) {
                quadratic.push((a.column, b.column, value));
            }
        }
        Ok((added, removed))
    }

    /// One pass over the pairs, without listing them.
    fn pass<E: Fn() -> bool>(
        &self,
        objective: &Objective,
        list: &Vec<Affected>,
        diagonal: Real,
        missing: bool,
        quadratic: &mut Vec<(usize, usize, Real)>,
        fill: (u128, u128, u128),
        max_fill: usize,
        expired: &E,
    ) -> (r: Result<(u128, u128, u128), Failure>)
        requires
            self.wf(),
            objective.wf(),
            call_requires(*expired, ()),
            list@.len() < NONE,
            fill.0 + fill.1 + fill.2 <= u128::MAX / 4,
            forall|a: int|
                0 <= a < list@.len() ==> (#[trigger] list@[a]).column < objective.c@.len(),
            updates_fit(old(quadratic)@, objective.c@.len()),
        ensures
            updates_fit(final(quadratic)@, objective.c@.len()),
            ({
                let goal = self.pair_pass(
                    objective.p@,
                    list@,
                    diagonal,
                    objective::all_pairs(list@, diagonal, list@.len()),
                    missing,
                    Count {
                        added: fill.0 as nat,
                        removed: fill.1 as nat,
                        list: old(quadratic)@,
                    },
                    max_fill as nat,
                );
                match r {
                    Ok((added, removed, visits)) => {
                        &&& goal == Ok::<Count, Failure>(
                            Count {
                                added: added as nat,
                                removed: removed as nat,
                                list: final(quadratic)@,
                            },
                        )
                        &&& added + removed + visits <= fill.0 + fill.1 + fill.2 + 3 * NONE * NONE
                    },
                    Err(Failure::Deadline) => call_ensures(*expired, (), true),
                    Err(e) => goal == Err::<Count, Failure>(e),
                }
            }),
    {
        let (mut added, mut removed, mut visits): (u128, u128, u128) = fill;
        let ghost p = objective.p@;
        let ghost count = Count {
            added: fill.0 as nat,
            removed: fill.1 as nat,
            list: quadratic@,
        };
        let ghost n = list@.len();
        let ghost all = objective::all_pairs(list@, diagonal, n);
        let mut j: usize = 0;
        assert(list.len() == list@.len());
        proof {
            assert(objective::all_pairs(list@, diagonal, 0) =~= Seq::<(usize, usize)>::empty());
        }
        while j < list.len()
            invariant
                j <= list@.len(),
                n == list@.len(),
                n < NONE,
                count == (Count {
                    added: fill.0 as nat,
                    removed: fill.1 as nat,
                    list: old(quadratic)@,
                }),
                self.wf(),
                objective.wf(),
                p == objective.p@,
                call_requires(*expired, ()),
                all == objective::all_pairs(list@, diagonal, n),
                fill.0 + fill.1 + fill.2 <= u128::MAX / 4,
                added + removed + visits <= fill.0 + fill.1 + fill.2 + 3 * j * NONE,
                forall|a: int|
                    0 <= a < list@.len() ==> (#[trigger] list@[a]).column < objective.c@.len(),
                updates_fit(quadratic@, objective.c@.len()),
                self.pair_pass(
                    p,
                    list@,
                    diagonal,
                    objective::all_pairs(list@, diagonal, j as nat),
                    missing,
                    count,
                    max_fill as nat,
                ) == Ok::<Count, Failure>(
                    Count { added: added as nat, removed: removed as nat, list: quadratic@ },
                ),
            decreases list@.len() - j,
        {
            let ghost base = objective::all_pairs(list@, diagonal, j as nat);
            let by_slope = !list[j].curvature.is_zero() || (!diagonal.is_zero()
                && list[j].sloped);
            let by_curvature = list[j].sloped;
            let mut l: usize = j;
            proof {
                assert(base + objective::row_pairs(list@, diagonal, j as nat, j as nat) =~= base);
                assert(3 * j * NONE <= 3 * NONE * NONE) by (nonlinear_arith)
                    requires
                        j < NONE,
                ;
                assert(3 * (j + 1) * NONE == 3 * j * NONE + 3 * NONE) by (nonlinear_arith);
            }
            while l < list.len()
                invariant
                    j <= l <= list@.len(),
                    j < list@.len(),
                    n == list@.len(),
                    n < NONE,
                    count == (Count {
                        added: fill.0 as nat,
                        removed: fill.1 as nat,
                        list: old(quadratic)@,
                    }),
                    self.wf(),
                    objective.wf(),
                    p == objective.p@,
                    call_requires(*expired, ()),
                    all == objective::all_pairs(list@, diagonal, n),
                    base == objective::all_pairs(list@, diagonal, j as nat),
                    by_slope == (!list@[j as int].curvature.zero() || (!diagonal.zero()
                        && list@[j as int].sloped)),
                    by_curvature == list@[j as int].sloped,
                    fill.0 + fill.1 + fill.2 <= u128::MAX / 4,
                    3 * j * NONE <= 3 * NONE * NONE,
                    added + removed + visits <= fill.0 + fill.1 + fill.2 + 3 * j * NONE + 3 * (l
                        - j),
                    forall|a: int|
                        0 <= a < list@.len() ==> (#[trigger] list@[a]).column
                            < objective.c@.len(),
                    updates_fit(quadratic@, objective.c@.len()),
                    self.pair_pass(
                        p,
                        list@,
                        diagonal,
                        base + objective::row_pairs(list@, diagonal, j as nat, l as nat),
                        missing,
                        count,
                        max_fill as nat,
                    ) == Ok::<Count, Failure>(
                        Count { added: added as nat, removed: removed as nat, list: quadratic@ },
                    ),
                decreases list@.len() - l,
            {
                let keep = if by_slope && by_curvature {
                    true
                } else if by_slope {
                    list[l].sloped
                } else if by_curvature {
                    list[l].curved
                } else {
                    false
                };
                if keep {
                    let ghost so_far = base + objective::row_pairs(
                        list@,
                        diagonal,
                        j as nat,
                        l as nat,
                    );
                    let ghost next = base + objective::row_pairs(
                        list@,
                        diagonal,
                        j as nat,
                        (l + 1) as nat,
                    );
                    proof {
                        assert(next =~= so_far.push((j, l)));
                        assert(next.drop_last() =~= so_far);
                        objective::pairs_are_a_prefix(list@, diagonal, j as nat, (l + 1) as nat);
                    }
                    visits = visits + 1;
                    match self.visit(
                        objective,
                        list,
                        diagonal,
                        (j, l),
                        missing,
                        quadratic,
                        (added, removed),
                        max_fill,
                        visits,
                        expired,
                    ) {
                        Ok((a, r)) => {
                            added = a;
                            removed = r;
                        },
                        Err(e) => {
                            proof {
                                if e != Failure::Deadline {
                                    assert(all.take(next.len() as int) =~= next);
                                    self.refusal_stays(
                                        p,
                                        list@,
                                        diagonal,
                                        all,
                                        missing,
                                        count,
                                        max_fill as nat,
                                        next.len() as int,
                                    );
                                }
                            }
                            return Err(e);
                        },
                    }
                } else {
                    assert(objective::row_pairs(list@, diagonal, j as nat, (l + 1) as nat)
                        == objective::row_pairs(list@, diagonal, j as nat, l as nat));
                }
                l = l + 1;
            }
            j = j + 1;
        }
        proof {
            assert(3 * j * NONE <= 3 * NONE * NONE) by (nonlinear_arith)
                requires
                    j <= NONE,
            ;
        }
        Ok((added, removed, visits))
    }

    fn linear_of(
        &self,
        c: &Vec<Real>,
        k: usize,
        diagonal: Real,
        offset: Real,
        list: &Vec<Affected>,
    ) -> (out: Entries)
        requires
            self.wf(),
            k < c@.len(),
            forall|a: int| 0 <= a < list@.len() ==> (#[trigger] list@[a]).column < c@.len(),
        ensures
            out@ == self.linear_values(c@, k, diagonal, offset, list@),
    {
        let ghost goal = self.linear_values(c@, k, diagonal, offset, list@);
        let mut out: Entries = Vec::new();
        let mut i: usize = 0;
        while i < list.len()
            invariant
                i <= list@.len(),
                self.wf(),
                k < c@.len(),
                goal == self.linear_values(c@, k, diagonal, offset, list@),
                forall|a: int| 0 <= a < list@.len() ==> (#[trigger] list@[a]).column < c@.len(),
                out@ == goal.take(i as int),
            decreases list@.len() - i,
        {
            let a = list[i];
            assert(list@[i as int].column < c@.len());
            let mut v = c[a.column];
            if a.curved {
                v = self.sum_of(v, self.product_of(offset, a.curvature));
            }
            if a.sloped {
                let base = self.sum_of(c[k], self.product_of(diagonal, offset));
                v = self.sum_of(v, self.product_of(base, a.slope));
            }
            out.push((a.column, v));
            i = i + 1;
            assert(out@ =~= goal.take(i as int));
        }
        assert(out@ =~= goal);
        out
    }

    /// Work out the substitution `x_k = offset + sum slope_j x_j`. Nothing
    /// changes. A deadline may end the work without a result.
    pub fn plan_substitution<E: Fn() -> bool>(
        &self,
        objective: &Objective,
        k: usize,
        offset: Real,
        slopes: &Entries,
        max_fill: usize,
        allow_growth: bool,
        expired: &E,
    ) -> (r: Result<Plan, Failure>)
        requires
            self.wf(),
            objective.wf(),
            k < objective.c@.len(),
            call_requires(*expired, ()),
            merge::increasing(slopes@),
            forall|a: int|
                0 <= a < slopes@.len() ==> (#[trigger] slopes@[a]).0 < objective.c@.len()
                    && slopes@[a].0 != k,
        ensures
            match r {
                Ok(plan) => {
                    &&& plan.gradient.constant == objective.c@[k as int]
                    &&& linked::lists_line(plan.gradient.terms@, objective.p@, false, k as int)
                    &&& self.planned(
                        *objective,
                        plan.gradient.terms@,
                        k,
                        offset,
                        slopes@,
                        max_fill as nat,
                        allow_growth,
                    ) == Ok::<Outline, Failure>(
                        Outline {
                            constant: plan.constant,
                            linear: plan.linear@,
                            quadratic: plan.quadratic@,
                        },
                    )
                    &&& forall|a: int|
                        0 <= a < plan.linear@.len() ==> (#[trigger] plan.linear@[a]).0
                            < objective.c@.len()
                    &&& forall|a: int|
                        0 <= a < plan.quadratic@.len() ==> {
                            &&& (#[trigger] plan.quadratic@[a]).0 < objective.c@.len()
                            &&& plan.quadratic@[a].1 < objective.c@.len()
                            &&& plan.quadratic@[a].2.finite()
                        }
                },
                Err(Failure::Deadline) => call_ensures(*expired, (), true),
                Err(e) => exists|terms: Seq<(usize, Real)>|
                    linked::lists_line(terms, objective.p@, false, k as int) && #[trigger] self.planned(
                        *objective,
                        terms,
                        k,
                        offset,
                        slopes@,
                        max_fill as nat,
                        allow_growth,
                    ) == Err::<Outline, Failure>(e),
            },
    {
        let gradient = objective.gradient(k);
        let ghost terms = gradient.terms@;
        let diagonal = objective.coefficient(k, k);
        let ghost goal = self.planned(
            *objective,
            terms,
            k,
            offset,
            slopes@,
            max_fill as nat,
            allow_growth,
        );
        let first = self.sum_of(objective.constant, self.product_of(objective.c[k], offset));
        let half = self.product_of(Real { bits: HALF }, diagonal);
        let square = self.product_of(self.product_of(half, offset), offset);
        let constant = self.sum_of(first, square);
        if !constant.is_finite() || !offset.is_finite() {
            assert(goal == Err::<Outline, Failure>(Failure::Numerical));
            return Err(Failure::Numerical);
        }
        let rest = objective::without(&gradient.terms, k);
        proof {
            objective::others_increase(terms, k);
        }
        let list = objective::support(&rest, slopes);
        proof {
            objective.p.stored_positions();
            assert forall|a: int| 0 <= a < list@.len() implies (#[trigger] list@[a]).column
                < objective.c@.len() by {
                if exists|b: int| 0 <= b < rest@.len() && (#[trigger] rest@[b]).0 == list@[a].column {
                    let b = choose|b: int|
                        0 <= b < rest@.len() && (#[trigger] rest@[b]).0 == list@[a].column;
                    objective::others_are_listed(terms, k, b);
                    let e = choose|e: int| 0 <= e < terms.len() && terms[e] == rest@[b];
                    assert(objective.p@.contains_key(
                        linked::place(false, k as int, terms[e].0 as int),
                    ));
                    assert(objective.p@.contains_key((k as int, terms[e].0 as int)));
                } else {
                    let b = choose|b: int|
                        0 <= b < slopes@.len() && (#[trigger] slopes@[b]).0 == list@[a].column;
                    assert(slopes@[b].0 < objective.c@.len());
                }
            }
        }
        proof {
            if list@.len() > 0 {
                assert(list@[list@.len() - 1].column < objective.c@.len());
            }
        }
        let linear = self.linear_of(&objective.c, k, diagonal, offset, &list);
        let mut quadratic: Vec<(usize, usize, Real)> = Vec::new();
        let own: u128 = gradient.terms.len() as u128;
        let removed: u128 = if diagonal.is_zero() {
            2 * own
        } else if own == 0 {
            0
        } else {
            2 * own - 1
        };
        proof {
            if !diagonal.zero() {
                assert(objective.p@.contains_key((k as int, k as int)));
                assert(objective.p@.contains_key(linked::place(false, k as int, k as int)));
                assert(terms.len() > 0);
            }
            assert(quadratic@ =~= Seq::<(usize, usize, Real)>::empty());
        }
        let ghost count = Count { added: 0, removed: removed as nat, list: Seq::empty() };
        let mut added: u128 = 0;
        let mut removed: u128 = removed;
        if own > 0 {
            let (a, r, visits): (u128, u128, u128) = match self.pass(
                objective,
                &list,
                diagonal,
                true,
                &mut quadratic,
                (0, removed, 0),
                max_fill,
                expired,
            ) {
                Ok(r) => r,
                Err(e) => {
                    assert(e != Failure::Deadline ==> goal == Err::<Outline, Failure>(e));
                    return Err(e);
                },
            };
            let (a, r, visits): (u128, u128, u128) = match self.pass(
                objective,
                &list,
                diagonal,
                false,
                &mut quadratic,
                (a, r, visits),
                max_fill,
                expired,
            ) {
                Ok(r) => r,
                Err(e) => {
                    assert(e != Failure::Deadline ==> goal == Err::<Outline, Failure>(e));
                    return Err(e);
                },
            };
            added = a;
            removed = r;
        }
        if !allow_growth && added > removed {
            assert(goal == Err::<Outline, Failure>(Failure::HessianGrowth));
            return Err(Failure::HessianGrowth);
        }
        if !finite_values(&linear) {
            assert(goal == Err::<Outline, Failure>(Failure::Numerical));
            return Err(Failure::Numerical);
        }
        proof {
            assert forall|a: int| 0 <= a < linear@.len() implies (#[trigger] linear@[a]).0
                < objective.c@.len() by {
                assert(list@[a].column < objective.c@.len());
            }
        }
        Ok(Plan { gradient, constant, linear, quadratic })
    }

    /// Substitute a variable, unless that is refused. Where it is, nothing has
    /// changed.
    pub fn try_substitute<E: Fn() -> bool>(
        &self,
        objective: &mut Objective,
        k: usize,
        offset: Real,
        slopes: &Entries,
        max_fill: usize,
        allow_growth: bool,
        expired: &E,
    ) -> (r: Result<Gradient, Failure>)
        requires
            self.wf(),
            old(objective).wf(),
            k < old(objective).c@.len(),
            call_requires(*expired, ()),
            merge::increasing(slopes@),
            forall|a: int|
                0 <= a < slopes@.len() ==> (#[trigger] slopes@[a]).0 < old(objective).c@.len()
                    && slopes@[a].0 != k,
        ensures
            final(objective).wf(),
            final(objective).c@.len() == old(objective).c@.len(),
            match r {
                Ok(gradient) => {
                    &&& gradient.constant == old(objective).c@[k as int]
                    &&& linked::lists_line(
                        gradient.terms@,
                        old(objective).p@,
                        false,
                        k as int,
                    )
                    &&& self.planned(
                        *old(objective),
                        gradient.terms@,
                        k,
                        offset,
                        slopes@,
                        max_fill as nat,
                        allow_growth,
                    ) matches Ok(plan) && applied(*old(objective), *final(objective), k, plan)
                },
                Err(Failure::Deadline) => call_ensures(*expired, (), true) && *final(objective)
                    == *old(objective),
                Err(e) => *final(objective) == *old(objective) && exists|
                    terms: Seq<(usize, Real)>,
                |
                    linked::lists_line(terms, old(objective).p@, false, k as int)
                        && refused_with(
                        #[trigger] self.planned(
                            *old(objective),
                            terms,
                            k,
                            offset,
                            slopes@,
                            max_fill as nat,
                            allow_growth,
                        ),
                        *old(objective),
                        e,
                    ),
            },
    {
        match self.plan_substitution(
            objective,
            k,
            offset,
            slopes,
            max_fill,
            allow_growth,
            expired,
        ) {
            Ok(plan) => {
                let places: u128 = objective.p.nnz() as u128 + 2 * (plan.quadratic.len() as u128)
                    + 2;
                let edits: u128 = objective.p.revision() as u128 + plan.quadratic.len() as u128 + 1;
                if places >= 2 * (NONE as u128) || places > usize::MAX as u128 || edits
                    >= usize::MAX as u128 {
                    assert(linked::lists_line(
                        plan.gradient.terms@,
                        objective.p@,
                        false,
                        k as int,
                    ));
                    return Err(Failure::Capacity);
                }
                objective.commit(k, &plan);
                Ok(plan.gradient)
            },
            Err(e) => Err(e),
        }
    }
}

/// Updates at places of the Hessian with finite values.
pub open spec fn updates_fit(list: Seq<(usize, usize, Real)>, n: nat) -> bool {
    forall|a: int|
        0 <= a < list.len() ==> {
            &&& (#[trigger] list[a]).0 < n
            &&& list[a].1 < n
            &&& list[a].2.finite()
        }
}

/// An objective after a substitution.
pub open spec fn applied(before: Objective, after: Objective, k: usize, plan: Outline) -> bool {
    &&& after.constant == plan.constant
    &&& after.c@ == objective::assigned(before.c@.update(k as int, zero()), plan.linear)
    &&& after.p@ == objective::updated(
        symmetric::variable_removed(before.p@, k as int),
        plan.quadratic,
    )
}

/// The plan was refused, or its result does not fit into the storage.
pub open spec fn refused_with(
    plan: Result<Outline, Failure>,
    objective: Objective,
    e: Failure,
) -> bool {
    match plan {
        Err(reason) => reason == e,
        Ok(outline) => e == Failure::Capacity && {
            let places = objective.p@.dom().len() + 2 * outline.quadratic.len() + 2;
            ||| places >= 2 * NONE
            ||| places > usize::MAX
            ||| objective.p.edits() + outline.quadratic.len() + 1 >= usize::MAX
        },
    }
}

pub(crate) fn finite_values(list: &Entries) -> (b: bool)
    ensures
        b == objective::all_finite(list@),
{
    let mut a: usize = 0;
    while a < list.len()
        invariant
            a <= list@.len(),
            forall|i: int| 0 <= i < a ==> (#[trigger] list@[i]).1.finite(),
        decreases list@.len() - a,
    {
        if !list[a].1.is_finite() {
            assert(!list@[a as int].1.finite());
            return false;
        }
        a = a + 1;
    }
    true
}

} // verus!
