//! Parallel rows and columns.
//!
//! Fingerprints of supports and coefficients propose groups; comparing the
//! entries establishes that two lines are proportional.

use crate::arithmetic::Arithmetic;
use crate::bounds::{Bounds, RowDomain, Side};
use crate::linked;
use crate::linked::Entries;
use crate::listing;
use crate::model::Model;
use crate::number::{minus_one, one, zero, Real};
use crate::objective::Objective;
use crate::passes;
use crate::sparsify;
use crate::symmetric;
use crate::tape::Rule;
use crate::transaction;
use vstd::prelude::*;

verus! {

impl<
    P: Fn(Real, Real) -> Real,
    T: Fn(Real, Real) -> Real,
    D: Fn(Real, Real) -> Real,
    H: Fn(Real, Real) -> Real,
> Arithmetic<P, T, D, H> {
    /// Two finite values within a relative tolerance.
    pub open spec fn alike(&self, a: Real, b: Real, tolerance: Real) -> bool {
        a.finite() && b.finite() && self.difference(a, b).absolute().le(
            self.product(tolerance, a.absolute().larger(b.absolute())),
        )
    }

    fn is_alike(&self, a: Real, b: Real, tolerance: Real) -> (r: bool)
        requires
            self.wf(),
        ensures
            r == self.alike(a, b, tolerance),
    {
        a.is_finite() && b.is_finite() && self.difference_of(a, b).abs().at_most(
            self.product_of(tolerance, a.abs().max(b.abs())),
        )
    }

    /// From place `k` on, `base` is `ratio` times `other` within the tolerance,
    /// and whether it is exactly.
    pub open spec fn matches_scaled(
        &self,
        base: Seq<(usize, Real)>,
        other: Seq<(usize, Real)>,
        ratio: Real,
        tolerance: Real,
        exact: bool,
        k: int,
    ) -> Option<(Real, bool)>
        decreases base.len() - k,
    {
        if k >= base.len() || k >= other.len() {
            Some((ratio, exact))
        } else {
            let a = base[k].1;
            let scaled = self.product(ratio, other[k].1);
            if base[k].0 != other[k].0 || !scaled.finite() || self.product(
                tolerance,
                a.absolute().larger(scaled.absolute()),
            ).lt(self.difference(a, scaled).absolute()) {
                None
            } else {
                self.matches_scaled(
                    base,
                    other,
                    ratio,
                    tolerance,
                    exact && a.same(scaled),
                    k + 1,
                )
            }
        }
    }

    /// The ratio of two lines, if they have one, and whether it is exact.
    pub open spec fn line_ratio(
        &self,
        base: Seq<(usize, Real)>,
        other: Seq<(usize, Real)>,
        tolerance: Real,
    ) -> Option<(Real, bool)> {
        let ratio = self.quotient(base[0].1, other[0].1);
        if base.len() == 0 || base.len() != other.len() || !ratio.finite() || ratio.zero() {
            None
        } else {
            self.matches_scaled(base, other, ratio, tolerance, true, 0)
        }
    }

    /// The first line divided by the second, plus whether the equality is exact.
    /// Exactness is needed before two inequalities become an equality.
    pub fn proportional(&self, base: &Entries, other: &Entries, tolerance: Real) -> (r: Option<
        (Real, bool),
    >)
        requires
            self.wf(),
        ensures
            r == self.line_ratio(base@, other@, tolerance),
    {
        if base.len() == 0 || base.len() != other.len() {
            return None;
        }
        let ratio = self.quotient_of(base[0].1, other[0].1);
        if !ratio.is_finite() || ratio.is_zero() {
            return None;
        }
        let mut exact = true;
        let mut k: usize = 0;
        while k < base.len()
            invariant
                k <= base@.len(),
                base@.len() == other@.len(),
                base@.len() > 0,
                ratio == self.quotient(base@[0].1, other@[0].1),
                ratio.finite(),
                !ratio.zero(),
                self.wf(),
                self.matches_scaled(base@, other@, ratio, tolerance, true, 0)
                    == self.matches_scaled(base@, other@, ratio, tolerance, exact, k as int),
            decreases base@.len() - k,
        {
            let (j, a): (usize, Real) = base[k];
            let scaled = self.product_of(ratio, other[k].1);
            if j != other[k].0 || !scaled.is_finite() || self.product_of(
                tolerance,
                a.abs().max(scaled.abs()),
            ).less(self.difference_of(a, scaled).abs()) {
                return None;
            }
            exact = exact && a.equals(scaled);
            k = k + 1;
        }
        Some((ratio, exact))
    }

    /// What merging two rows comes to.
    pub open spec fn row_merger(
        &self,
        model: Model,
        base: usize,
        other: usize,
        tolerance: Real,
        feasibility: Real,
    ) -> Merger {
        match (
            self.line_ratio(
                listing::line(model.a@, false, base as int),
                listing::line(model.a@, false, other as int),
                tolerance,
            ),
            model.rows@[base as int],
            model.rows@[other as int],
        ) {
            (Some((ratio, exact)), RowDomain::Linear(b), RowDomain::Linear(c)) => {
                let (cl, cu) = if zero().lt(ratio) {
                    (c.lower, c.upper)
                } else {
                    (c.upper, c.lower)
                };
                let lower = self.product(ratio, cl);
                let upper = self.product(ratio, cu);
                let common = Bounds { lower: b.lower.larger(lower), upper: b.upper.smaller(upper) };
                if cl.finite() && !lower.finite() || cu.finite() && !upper.finite() {
                    Merger::Apart
                } else if common.upper.lt(common.lower) {
                    if !exact || self.difference(common.lower, common.upper).le(
                        self.product(
                            feasibility,
                            self.sum(one(), common.lower.absolute().larger(common.upper.absolute())),
                        ),
                    ) {
                        Merger::Apart
                    } else {
                        Merger::Conflict(
                            if upper.lt(b.lower) {
                                one()
                            } else {
                                minus_one()
                            },
                            ratio,
                        )
                    }
                } else if common.is_equality() && !b.is_equality() && !exact {
                    Merger::Apart
                } else {
                    Merger::Join(ratio, common)
                }
            },
            _ => Merger::Apart,
        }
    }

    /// Whether two rows merge, and into what.
    pub fn compare_rows(
        &self,
        model: &Model,
        base: usize,
        other: usize,
        tolerance: Real,
        feasibility: Real,
    ) -> (m: Merger)
        requires
            self.wf(),
            model.wf(),
            base < model.rows@.len(),
            other < model.rows@.len(),
        ensures
            m == self.row_merger(*model, base, other, tolerance, feasibility),
    {
        let first = model.row_entries(base);
        let second = model.row_entries(other);
        let (ratio, exact): (Real, bool) = match self.proportional(&first, &second, tolerance) {
            Some(found) => found,
            None => {
                return Merger::Apart;
            },
        };
        let (b, c): (Bounds, Bounds) = match (model.rows[base], model.rows[other]) {
            (RowDomain::Linear(b), RowDomain::Linear(c)) => (b, c),
            _ => {
                return Merger::Apart;
            },
        };
        let (cl, cu): (Real, Real) = if zero().less(ratio) {
            (c.lower, c.upper)
        } else {
            (c.upper, c.lower)
        };
        let lower = self.product_of(ratio, cl);
        let upper = self.product_of(ratio, cu);
        if cl.is_finite() && !lower.is_finite() || cu.is_finite() && !upper.is_finite() {
            return Merger::Apart;
        }
        let common = Bounds { lower: b.lower.max(lower), upper: b.upper.min(upper) };
        if common.upper.less(common.lower) {
            let gap = self.difference_of(common.lower, common.upper);
            if !exact || gap.at_most(
                self.product_of(
                    feasibility,
                    self.sum_of(one(), common.lower.abs().max(common.upper.abs())),
                ),
            ) {
                return Merger::Apart;
            }
            return Merger::Conflict(
                if upper.less(b.lower) {
                    one()
                } else {
                    minus_one()
                },
                ratio,
            );
        }
        if common.equality() && !b.equality() && !exact {
            return Merger::Apart;
        }
        Merger::Join(ratio, common)
    }
}

/// Two rows compared.
#[derive(Clone, Copy, Debug, PartialEq, Eq, Structural)]
pub enum Merger {
    /// They stay as they are.
    Apart,
    /// The multiplier of the first and the ratio of the rows prove that no point
    /// satisfies both.
    Conflict(Real, Real),
    /// The first takes these sides and the second goes.
    Join(Real, Bounds),
}

/// The rules that record how a row took the sides of another.
pub open spec fn side_rules(base: usize, other: usize, ratio: Real, b: Bounds, common: Bounds) -> Seq<
    Rule,
> {
    let lower = if b.lower.lt(common.lower) {
        seq![Rule::TightenedRow { row: base, source: other, ratio, side: Side::Lower }]
    } else {
        Seq::empty()
    };
    let upper = if common.upper.lt(b.upper) {
        seq![Rule::TightenedRow { row: base, source: other, ratio, side: Side::Upper }]
    } else {
        Seq::empty()
    };
    lower + upper
}

/// The sides that a row takes over: only those that move.
pub open spec fn sides_taken(b: Bounds, common: Bounds) -> Bounds {
    Bounds {
        lower: if b.lower.lt(common.lower) {
            common.lower
        } else {
            b.lower
        },
        upper: if common.upper.lt(b.upper) {
            common.upper
        } else {
            b.upper
        },
    }
}

/// The second row went and the first took its sides.
pub open spec fn rows_joined(
    before: Model,
    after: Model,
    base: usize,
    other: usize,
    ratio: Real,
    common: Bounds,
) -> bool {
    let b = before.rows@[base as int]->Linear_0;
    &&& linked::row_replaced(after.a@, before.a@, other as int, Seq::empty())
    &&& after.rows@ == before.rows@.update(
        base as int,
        RowDomain::Linear(sides_taken(b, common)),
    ).update(other as int, RowDomain::Deleted)
    &&& after.bounds@ == before.bounds@
    &&& after.alive@ == before.alive@
    &&& after.tape@ == before.tape@ + side_rules(base, other, ratio, b, common) + seq![
        Rule::MergedRow { keep: base, removed: other, ratio },
    ]
}

impl Model {
    /// Let the first row take the sides common to both, and remove the second.
    pub fn join_rows(&mut self, base: usize, other: usize, ratio: Real, common: Bounds)
        requires
            old(self).wf(),
            base < old(self).rows@.len(),
            other < old(self).rows@.len(),
            base != other,
            old(self).rows@[base as int] is Linear,
            old(self).revision + 3 <= usize::MAX,
        ensures
            final(self).wf(),
            rows_joined(*old(self), *final(self), base, other, ratio, common),
            final(self).revision > old(self).revision,
    {
        let ghost start = *self;
        let ghost tape = self.tape@;
        let b = match self.rows[base] {
            RowDomain::Linear(b) => b,
            _ => common,
        };
        if b.lower.less(common.lower) {
            self.tighten_row(base, other, ratio, Side::Lower, common.lower);
        }
        let ghost middle = self.tape@;
        if common.upper.less(b.upper) {
            self.tighten_row(base, other, ratio, Side::Upper, common.upper);
        }
        assert(self.tape@ =~= tape + side_rules(base, other, ratio, b, common));
        assert(self.rows@ =~= start.rows@.update(
            base as int,
            RowDomain::Linear(sides_taken(b, common)),
        ));
        proof {
            self.a.stored_count_fits();
        }
        self.clear_row(other);
        self.tape.push(Rule::MergedRow { keep: base, removed: other, ratio });
        assert(self.tape@ =~= tape + side_rules(base, other, ratio, b, common) + seq![
            Rule::MergedRow { keep: base, removed: other, ratio },
        ]);
    }
}

impl<
    P: Fn(Real, Real) -> Real,
    T: Fn(Real, Real) -> Real,
    D: Fn(Real, Real) -> Real,
    H: Fn(Real, Real) -> Real,
> Arithmetic<P, T, D, H> {
    /// Merge two rows that are parallel. Returns whether they merged, or the
    /// multipliers of both rows that prove the model infeasible.
    pub fn merge_parallel_rows(
        &self,
        model: &mut Model,
        base: usize,
        other: usize,
        tolerance: Real,
        feasibility: Real,
    ) -> (r: Result<bool, (Real, Real)>)
        requires
            self.wf(),
            old(model).wf(),
            base < old(model).rows@.len(),
            other < old(model).rows@.len(),
            base != other,
        ensures
            final(model).wf(),
            final(model).rows@.len() == old(model).rows@.len(),
            final(model).bounds@.len() == old(model).bounds@.len(),
            ({
                let merger = self.row_merger(*old(model), base, other, tolerance, feasibility);
                match r {
                    Ok(true) => old(model).revision + 3 <= usize::MAX && (
                    merger matches Merger::Join(ratio, common) && rows_joined(
                        *old(model),
                        *final(model),
                        base,
                        other,
                        ratio,
                        common,
                    )),
                    Ok(false) => *final(model) == *old(model) && (merger is Apart || merger is Join
                        && old(model).revision + 3 > usize::MAX),
                    Err((first, second)) => *final(model) == *old(model) && (
                    merger matches Merger::Conflict(multiplier, ratio) && first == multiplier
                        && second == self.product(ratio.opposite(), multiplier)),
                }
            }),
    {
        match self.compare_rows(model, base, other, tolerance, feasibility) {
            Merger::Apart => Ok(false),
            Merger::Conflict(multiplier, ratio) => Err(
                (multiplier, self.product_of(ratio.neg(), multiplier)),
            ),
            Merger::Join(ratio, common) => {
                if model.revision > usize::MAX - 3 {
                    return Ok(false);
                }
                model.join_rows(base, other, ratio, common);
                Ok(true)
            },
        }
    }
}

/// A hash of the support and one of the rounded coefficients of a line.
pub type Print = (u32, u32);

/// The next value of a hash.
pub open spec fn mixed(hash: u32, value: u32) -> u32 {
    ((hash as int * 33 + value as int) % 0x1_0000_0000) as u32
}

fn mix(hash: u32, value: u32) -> (next: u32)
    ensures
        next == mixed(hash, value),
{
    ((hash as u64 * 33 + value as u64) % 0x1_0000_0000) as u32
}

/// What a rounding function makes of a value.
pub open spec fn rounding<F: Fn(Real) -> u32>(f: F, v: Real) -> u32 {
    choose|n: u32| call_ensures(f, (v,), n)
}

/// The rounding function has one result for every value.
pub open spec fn rounds<F: Fn(Real) -> u32>(f: F) -> bool {
    &&& forall|v: Real| #[trigger] call_requires(f, (v,))
    &&& forall|v: Real, n: u32| #[trigger] call_ensures(f, (v,), n) ==> n == rounding(f, v)
}

/// A million.
pub const MILLION: u64 = 0x412e848000000000;

/// The first value of a hash.
pub const SEED: u32 = 5381;

impl<
    P: Fn(Real, Real) -> Real,
    T: Fn(Real, Real) -> Real,
    D: Fn(Real, Real) -> Real,
    H: Fn(Real, Real) -> Real,
> Arithmetic<P, T, D, H> {
    /// The hashes go on from place `k` of the entries. Coefficients are divided
    /// by the largest one, take the sign of the first, and are rounded to six
    /// places.
    pub open spec fn printed<F: Fn(Real) -> u32>(
        &self,
        entries: Seq<(usize, Real)>,
        largest: Real,
        sign: Real,
        f: F,
        print: Print,
        k: int,
    ) -> Print
        decreases entries.len() - k,
    {
        if k >= entries.len() {
            print
        } else {
            let (j, a) = entries[k];
            let scaled = self.product(
                self.product(Real { bits: MILLION }, self.quotient(a, largest)),
                sign,
            );
            self.printed(
                entries,
                largest,
                sign,
                f,
                (
                    mixed(print.0, (j as int % 0x1_0000_0000) as u32),
                    mixed(print.1, rounding(f, scaled)),
                ),
                k + 1,
            )
        }
    }

    /// A fingerprint that proportional lines share.
    pub fn fingerprint<F: Fn(Real) -> u32>(&self, entries: &Entries, f: &F) -> (print: Print)
        requires
            self.wf(),
            rounds(*f),
            entries@.len() > 0,
        ensures
            print == self.printed(
                entries@,
                sparsify::largest(entries@, zero(), 0),
                entries@[0].1.unit(),
                *f,
                (SEED, SEED),
                0,
            ),
    {
        let largest = sparsify::largest_of(entries);
        let sign = entries[0].1.signum();
        let mut print: Print = (SEED, SEED);
        let mut k: usize = 0;
        while k < entries.len()
            invariant
                k <= entries@.len(),
                self.wf(),
                rounds(*f),
                self.printed(entries@, largest, sign, *f, (SEED, SEED), 0) == self.printed(
                    entries@,
                    largest,
                    sign,
                    *f,
                    print,
                    k as int,
                ),
            decreases entries@.len() - k,
        {
            let (j, a): (usize, Real) = entries[k];
            let scaled = self.product_of(
                self.product_of(Real::from_bits(MILLION), self.quotient_of(a, largest)),
                sign,
            );
            let quantized: u32 = f(scaled);
            print =
            (mix(print.0, (j as u64 % 0x1_0000_0000) as u32), mix(print.1, quantized));
            k = k + 1;
        }
        print
    }

    /// One column of curvature is `ratio` times another, from place `k` of the
    /// first on: the entries beside it are compared with their images.
    pub open spec fn curvature_follows(
        &self,
        p: Map<(int, int), Real>,
        terms: Seq<(usize, Real)>,
        other: usize,
        ratio: Real,
        tolerance: Real,
        scale_terms: bool,
    ) -> bool {
        forall|t: int|
            0 <= t < terms.len() ==> {
                let a = (#[trigger] terms[t]).1;
                let b = beside(p, terms[t].0 as int, other as int);
                if scale_terms {
                    self.alike(b, self.product(ratio, a), tolerance)
                } else {
                    self.alike(a, self.product(ratio, b), tolerance)
                }
            }
    }

    /// Moving along parallel columns is linear in the objective.
    pub open spec fn flat_along(
        &self,
        objective: Objective,
        j: usize,
        k: usize,
        ratio: Real,
        tolerance: Real,
    ) -> bool {
        &&& self.curvature_follows(
            objective.p@,
            listing::line(objective.p@, false, j as int),
            k,
            ratio,
            tolerance,
            true,
        )
        &&& self.curvature_follows(
            objective.p@,
            listing::line(objective.p@, false, k as int),
            j,
            ratio,
            tolerance,
            false,
        )
    }

    fn follows(
        &self,
        objective: &Objective,
        j: usize,
        other: usize,
        ratio: Real,
        tolerance: Real,
        scale_terms: bool,
    ) -> (b: bool)
        requires
            self.wf(),
            objective.wf(),
            j < objective.c@.len(),
            other < objective.c@.len(),
        ensures
            b == self.curvature_follows(
                objective.p@,
                listing::line(objective.p@, false, j as int),
                other,
                ratio,
                tolerance,
                scale_terms,
            ),
    {
        let terms = objective.p.row(j).to_vec();
        proof {
            listing::line_is(terms@, objective.p@, false, j as int);
            objective.p.stored_positions();
            assert forall|k: int| 0 <= k < terms@.len() implies (#[trigger] terms@[k]).0
                < objective.c@.len() by {
                assert(objective.p@.contains_key(
                    linked::place(false, j as int, terms@[k].0 as int),
                ));
            }
        }
        let mut k: usize = 0;
        while k < terms.len()
            invariant
                k <= terms@.len(),
                self.wf(),
                objective.wf(),
                other < objective.c@.len(),
                terms@ == listing::line(objective.p@, false, j as int),
                forall|t: int|
                    0 <= t < terms@.len() ==> (#[trigger] terms@[t]).0 < objective.c@.len(),
                forall|t: int|
                    0 <= t < k ==> {
                        let a = (#[trigger] terms@[t]).1;
                        let b = beside(objective.p@, terms@[t].0 as int, other as int);
                        if scale_terms {
                            self.alike(b, self.product(ratio, a), tolerance)
                        } else {
                            self.alike(a, self.product(ratio, b), tolerance)
                        }
                    },
            decreases terms@.len() - k,
        {
            let (r, a): (usize, Real) = terms[k];
            assert(terms@[k as int].0 < objective.c@.len());
            let held = objective.p.get(r, other);
            let b = if held.is_zero() {
                zero()
            } else {
                held
            };
            let good = if scale_terms {
                self.is_alike(b, self.product_of(ratio, a), tolerance)
            } else {
                self.is_alike(a, self.product_of(ratio, b), tolerance)
            };
            if !good {
                return false;
            }
            k = k + 1;
        }
        true
    }

    pub fn parallel_curvature(
        &self,
        objective: &Objective,
        j: usize,
        k: usize,
        ratio: Real,
        tolerance: Real,
    ) -> (b: bool)
        requires
            self.wf(),
            objective.wf(),
            j < objective.c@.len(),
            k < objective.c@.len(),
        ensures
            b == self.flat_along(*objective, j, k, ratio, tolerance),
    {
        self.follows(objective, j, k, ratio, tolerance, true) && self.follows(
            objective,
            k,
            j,
            ratio,
            tolerance,
            false,
        )
    }

    /// The objective depends on two variables through `x_j + ratio x_k` only.
    pub open spec fn costs_parallel(
        &self,
        objective: Objective,
        j: usize,
        k: usize,
        ratio: Real,
        tolerance: Real,
    ) -> bool {
        self.alike(
            objective.c@[k as int],
            self.product(ratio, objective.c@[j as int]),
            tolerance,
        ) && self.flat_along(objective, j, k, ratio, tolerance)
    }

    pub fn parallel(
        &self,
        objective: &Objective,
        j: usize,
        k: usize,
        ratio: Real,
        tolerance: Real,
    ) -> (b: bool)
        requires
            self.wf(),
            objective.wf(),
            j < objective.c@.len(),
            k < objective.c@.len(),
        ensures
            b == self.costs_parallel(*objective, j, k, ratio, tolerance),
    {
        self.is_alike(objective.c[k], self.product_of(ratio, objective.c[j]), tolerance)
            && self.parallel_curvature(objective, j, k, ratio, tolerance)
    }

    /// The bounds of `x_keep + ratio x_removed`, where they can be formed.
    pub open spec fn joint_bounds(&self, b: Bounds, c: Bounds, ratio: Real) -> Option<Bounds> {
        let (l, u) = if zero().lt(ratio) {
            (c.lower, c.upper)
        } else {
            (c.upper, c.lower)
        };
        let lower = self.sum(b.lower, self.product(ratio, l));
        let upper = self.sum(b.upper, self.product(ratio, u));
        if lower.nan() || upper.nan() || b.lower.finite() && l.finite() && !lower.finite()
            || b.upper.finite() && u.finite() && !upper.finite() {
            None
        } else {
            Some(Bounds { lower, upper })
        }
    }

    /// The bounds of the sum of two parallel columns, where they can be replaced
    /// by it.
    pub open spec fn aggregation(
        &self,
        w: passes::Work,
        keep: usize,
        removed: usize,
        ratio: Real,
        tolerance: Real,
    ) -> Option<Bounds> {
        if !ratio.finite() || ratio.zero() || !self.costs_parallel(
            w.objective,
            keep,
            removed,
            ratio,
            tolerance,
        ) || w.model.revision + 2 > usize::MAX || w.objective.p@.dom().len() + 2 > usize::MAX
            || w.objective.p.edits() == usize::MAX {
            None
        } else {
            self.joint_bounds(
                w.model.bounds@[keep as int],
                w.model.bounds@[removed as int],
                ratio,
            )
        }
    }

    /// One variable stands for both.
    pub open spec fn aggregated(
        w: passes::Work,
        v: passes::Work,
        keep: usize,
        removed: usize,
        ratio: Real,
        joint: Bounds,
    ) -> bool {
        &&& v.model.a@ =~= w.model.a@.remove_keys(
            w.model.a@.dom().filter(|p: (int, int)| p.1 == removed),
        )
        &&& v.model.rows@ == w.model.rows@
        &&& v.model.bounds@ == w.model.bounds@.update(keep as int, joint)
        &&& v.model.alive@ == w.model.alive@.update(removed as int, false)
        &&& v.model.revision == w.model.revision + 2
        &&& v.model.tape@ == w.model.tape@.push(
            Rule::ParallelColumns {
                keep,
                removed,
                ratio,
                keep_bounds: w.model.bounds@[keep as int],
                removed_bounds: w.model.bounds@[removed as int],
            },
        )
        &&& v.objective.constant == w.objective.constant
        &&& v.objective.c@ == w.objective.c@.update(removed as int, zero())
        &&& v.objective.p@ == symmetric::variable_removed(w.objective.p@, removed as int)
    }

    /// Let one of two parallel columns stand for both.
    pub fn aggregate(
        &self,
        model: &mut Model,
        objective: &mut Objective,
        keep: usize,
        removed: usize,
        ratio: Real,
        tolerance: Real,
        eager: bool,
    ) -> (done: bool)
        requires
            self.wf(),
            old(model).wf(),
            old(objective).wf(),
            old(objective).c@.len() == old(model).bounds@.len(),
            keep < old(model).bounds@.len(),
            removed < old(model).bounds@.len(),
            keep != removed,
            old(model).alive@[removed as int],
        ensures
            final(model).wf(),
            final(objective).wf(),
            final(objective).c@.len() == final(model).bounds@.len(),
            final(model).bounds@.len() == old(model).bounds@.len(),
            done == self.aggregation(
                passes::work(*old(model), *old(objective)),
                keep,
                removed,
                ratio,
                tolerance,
            ) is Some,
            !done ==> *final(model) == *old(model) && *final(objective) == *old(objective),
            done ==> Self::aggregated(
                passes::work(*old(model), *old(objective)),
                passes::work(*final(model), *final(objective)),
                keep,
                removed,
                ratio,
                self.aggregation(
                    passes::work(*old(model), *old(objective)),
                    keep,
                    removed,
                    ratio,
                    tolerance,
                )->Some_0,
            ),
    {
        let ghost w = passes::work(*model, *objective);
        if !ratio.is_finite() || ratio.is_zero() || !self.parallel(
            objective,
            keep,
            removed,
            ratio,
            tolerance,
        ) || model.revision > usize::MAX - 2 || objective.p.nnz() > usize::MAX - 2
            || objective.p.revision() == usize::MAX {
            return false;
        }
        let (b, c): (Bounds, Bounds) = (model.bounds[keep], model.bounds[removed]);
        let (l, u): (Real, Real) = if zero().less(ratio) {
            (c.lower, c.upper)
        } else {
            (c.upper, c.lower)
        };
        let lower = self.sum_of(b.lower, self.product_of(ratio, l));
        let upper = self.sum_of(b.upper, self.product_of(ratio, u));
        if lower.is_nan() || upper.is_nan() || b.lower.is_finite() && l.is_finite()
            && !lower.is_finite() || b.upper.is_finite() && u.is_finite() && !upper.is_finite() {
            return false;
        }
        model.set_bounds(keep, Bounds { lower, upper }, eager);
        let entries = model.column_entries(removed);
        let mut domains: Vec<RowDomain> = Vec::new();
        let mut e: usize = 0;
        while e < entries.len()
            invariant
                e <= entries@.len(),
                domains@.len() == e,
                forall|t: int|
                    0 <= t < entries@.len() ==> (#[trigger] entries@[t]).0 < model.rows@.len(),
                forall|t: int|
                    0 <= t < e ==> (#[trigger] domains@[t]) == model.rows@[entries@[t].0 as int],
            decreases entries@.len() - e,
        {
            assert(entries@[e as int].0 < model.rows@.len());
            domains.push(model.rows[entries[e].0]);
            e = e + 1;
        }
        let coupled = objective.p.row(removed).to_vec();
        proof {
            listing::line_is(coupled@, objective.p@, false, removed as int);
            objective.p.stored_positions();
            assert forall|k: int| 0 <= k < coupled@.len() implies (#[trigger] coupled@[k]).0
                < model.a.column_count() by {
                assert(objective.p@.contains_key(
                    linked::place(false, removed as int, coupled@[k].0 as int),
                ));
            }
            assert forall|list: Seq<(usize, Real)>| #[trigger]
                linked::lists_line(list, model.a@, true, removed as int) implies domains@.len()
                == list.len() && forall|k: int|
                0 <= k < list.len() ==> transaction::same_sides(
                    model.rows@[(#[trigger] list[k]).0 as int],
                    domains@[k],
                ) by {
                linked::listing_is_unique(list, entries@, model.a@, true, removed as int);
            }
        }
        let ghost before = *model;
        let out = model.detach(removed, &domains, &coupled);
        proof {
            linked::listing_is_unique(out@, entries@, before.a@, true, removed as int);
            same_domains(before.rows@, entries@, domains@);
        }
        model.tape.push(
            Rule::ParallelColumns { keep, removed, ratio, keep_bounds: b, removed_bounds: c },
        );
        objective.p.remove_variable(removed);
        objective.c.set(removed, zero());
        true
    }
}

/// An entry of the curvature, zero where none is stored.
pub open spec fn beside(p: Map<(int, int), Real>, r: int, other: int) -> Real {
    let v = symmetric::value_at(p, r, other);
    if v.zero() {
        zero()
    } else {
        v
    }
}

/// Rows that get the domain they have stay as they are.
proof fn same_domains(
    rows: Seq<RowDomain>,
    entries: Seq<(usize, Real)>,
    domains: Seq<RowDomain>,
)
    requires
        domains.len() >= entries.len(),
        forall|t: int| 0 <= t < entries.len() ==> (#[trigger] entries[t]).0 < rows.len(),
        forall|t: int|
            0 <= t < entries.len() ==> (#[trigger] domains[t]) == rows[entries[t].0 as int],
    ensures
        transaction::domains_set(rows, entries, domains) == rows,
    decreases entries.len(),
{
    if entries.len() > 0 {
        let less = entries.drop_last();
        assert forall|t: int| 0 <= t < less.len() implies (#[trigger] less[t]).0 < rows.len() by {
            assert(entries[t].0 < rows.len());
        }
        assert forall|t: int| 0 <= t < less.len() implies (#[trigger] domains[t])
            == rows[less[t].0 as int] by {
            assert(less[t] == entries[t]);
        }
        same_domains(rows, less, domains);
        let n = entries.len() - 1;
        assert(entries[n].0 < rows.len());
        assert(rows.update(entries[n].0 as int, domains[n]) =~= rows);
    }
}

} // verus!
