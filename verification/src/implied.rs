//! Equalities that imply the bounds of their own pivot.
//!
//! Removing a bounded pivot leaves its bounds as a new row. Where the equality
//! proves those bounds, the row is redundant, and a pivot takes a row with it as
//! well as a column.

use crate::activity::Activity;
use crate::arithmetic::Arithmetic;
use crate::bounds::{Bounds, RowDomain};
use crate::choices;
use crate::choices::non_implied_bounds;
use crate::linked;
use crate::linked::Entries;
use crate::listing;
use crate::model::Model;
use crate::number::{infinity, neg_infinity, one, zero, Real};
use crate::objective::Objective;
use crate::passes::{self, Work};
use crate::pivots;
use crate::pivots::{capped_product, capped_sum};
use crate::queues;
use crate::queues::Worklist;
use crate::settings::EqualitySettings;
use crate::sparsify;
use crate::trees;
use vstd::prelude::*;

verus! {

/// A pivot with its estimated work and the number it is ranked by.
#[derive(Clone, Copy, Debug, PartialEq, Eq, Structural)]
pub struct Candidate {
    pub rank: usize,
    pub degree: usize,
    pub column: usize,
    pub estimate: usize,
}

/// By rank, then by the length of the column, then by its number.
pub open spec fn ranks_before(a: Candidate, b: Candidate) -> bool {
    if a.rank != b.rank {
        a.rank < b.rank
    } else if a.degree != b.degree {
        a.degree < b.degree
    } else {
        a.column < b.column
    }
}

fn outranks(a: Candidate, b: Candidate) -> (r: bool)
    ensures
        r == ranks_before(a, b),
{
    if a.rank != b.rank {
        a.rank < b.rank
    } else if a.degree != b.degree {
        a.degree < b.degree
    } else {
        a.column < b.column
    }
}

/// No candidate stands behind one that it outranks.
pub open spec fn ranked(list: Seq<Candidate>) -> bool {
    forall|a: int, b: int|
        0 <= a < b < list.len() ==> !ranks_before(#[trigger] list[b], #[trigger] list[a])
}

/// A candidate takes its place in a ranked list.
pub open spec fn placed(list: Seq<Candidate>, c: Candidate) -> Seq<Candidate>
    decreases list.len(),
{
    if list.len() == 0 || !ranks_before(c, list.last()) {
        list.push(c)
    } else {
        placed(list.drop_last(), c).push(list.last())
    }
}

proof fn placed_at(list: Seq<Candidate>, c: Candidate, p: int)
    requires
        0 <= p <= list.len(),
        p > 0 ==> !ranks_before(c, list[p - 1]),
        forall|q: int| p <= q < list.len() ==> ranks_before(c, #[trigger] list[q]),
    ensures
        placed(list, c) == list.insert(p, c),
    decreases list.len(),
{
    if p == list.len() {
        assert(list.insert(p, c) =~= list.push(c));
    } else {
        assert(ranks_before(c, list[list.len() - 1]));
        assert forall|q: int| p <= q < list.drop_last().len() implies ranks_before(
            c,
            #[trigger] list.drop_last()[q],
        ) by {
            assert(ranks_before(c, list[q]));
        }
        placed_at(list.drop_last(), c, p);
        assert(list.drop_last().insert(p, c).push(list.last()) =~= list.insert(p, c));
    }
}

/// A ranked list stays ranked when a candidate takes its place in it.
pub proof fn placing_keeps_rank(list: Seq<Candidate>, c: Candidate)
    requires
        ranked(list),
    ensures
        ranked(placed(list, c)),
        placed(list, c).len() == list.len() + 1,
        forall|k: int|
            0 <= k < placed(list, c).len() ==> (#[trigger] placed(list, c)[k] == c || list.contains(
                placed(list, c)[k],
            )),
    decreases list.len(),
{
    let out = placed(list, c);
    if list.len() == 0 || !ranks_before(c, list.last()) {
        assert forall|a: int, b: int| 0 <= a < b < out.len() implies !ranks_before(
            #[trigger] out[b],
            #[trigger] out[a],
        ) by {
            if b == list.len() && a < list.len() - 1 {
                assert(!ranks_before(list[list.len() - 1], list[a]));
            }
        }
        assert forall|k: int| 0 <= k < out.len() implies (#[trigger] out[k] == c || list.contains(
            out[k],
        )) by {
            if k < list.len() {
                assert(list[k] == out[k]);
            }
        }
    } else {
        let rest = list.drop_last();
        assert forall|a: int, b: int| 0 <= a < b < rest.len() implies !ranks_before(
            #[trigger] rest[b],
            #[trigger] rest[a],
        ) by {
            assert(!ranks_before(list[b], list[a]));
        }
        placing_keeps_rank(rest, c);
        let front = placed(rest, c);
        assert forall|k: int| 0 <= k < out.len() implies (#[trigger] out[k] == c || list.contains(
            out[k],
        )) by {
            if k < front.len() {
                assert(front[k] == c || rest.contains(front[k]));
                if front[k] != c {
                    let t = choose|t: int| 0 <= t < rest.len() && rest[t] == front[k];
                    assert(list[t] == out[k]);
                }
            } else {
                assert(list[list.len() - 1] == out[k]);
            }
        }
        assert forall|a: int, b: int| 0 <= a < b < out.len() implies !ranks_before(
            #[trigger] out[b],
            #[trigger] out[a],
        ) by {
            if b == front.len() {
                assert(front[a] == c || rest.contains(front[a]));
                if front[a] != c {
                    let t = choose|t: int| 0 <= t < rest.len() && rest[t] == front[a];
                    assert(!ranks_before(list[list.len() - 1], list[t]));
                }
            } else {
                assert(!ranks_before(front[b], front[a]));
            }
        }
    }
}

fn place(list: &mut Vec<Candidate>, c: Candidate)
    ensures
        final(list)@ == placed(old(list)@, c),
{
    let mut p: usize = list.len();
    while p > 0 && outranks(c, list[p - 1])
        invariant
            p <= list@.len(),
            list@ == old(list)@,
            forall|q: int| p <= q < list@.len() ==> ranks_before(c, #[trigger] list@[q]),
        decreases p,
    {
        p = p - 1;
    }
    proof {
        placed_at(list@, c, p as int);
    }
    list.insert(p, c);
}

/// The pivot size asked for, relative to the largest entry of its row.
pub open spec fn relative_size(options: EqualitySettings) -> Real {
    if zero().lt(options.relative_pivot) && options.relative_pivot.le(one()) {
        options.relative_pivot
    } else {
        one()
    }
}

/// The work that eliminating a column through a row of this length may take.
pub open spec fn estimated(objective: Objective, j: int, degree: nat, length: nat) -> int {
    let terms = listing::line(objective.p@, false, j).len();
    let own = objective.p@.contains_key((j, j)) && !objective.p@[(j, j)].zero();
    let others = if own && terms > 0 {
        terms - 1
    } else {
        terms as int
    };
    let square = if own {
        sparsify::capped((length - 1) * (length - 1))
    } else {
        0
    };
    let quadratic = sparsify::capped(
        sparsify::capped(sparsify::capped(others * (length - 1)) + square) * 2,
    );
    sparsify::capped(sparsify::capped((degree * length) as int) + quadratic)
}

fn estimate_of(objective: &Objective, j: usize, degree: usize, length: usize) -> (n: usize)
    requires
        objective.wf(),
        j < objective.c@.len(),
        length > 0,
    ensures
        n == estimated(*objective, j as int, degree as nat, length as nat),
{
    let terms = objective.p.row(j).to_vec();
    proof {
        listing::line_is(terms@, objective.p@, false, j as int);
    }
    let own = !objective.p.get(j, j).is_zero();
    let others: usize = if own && terms.len() > 0 {
        terms.len() - 1
    } else {
        terms.len()
    };
    let square: usize = if own {
        capped_product(length - 1, length - 1)
    } else {
        0
    };
    let quadratic: usize = capped_product(
        capped_sum(capped_product(others, length - 1), square),
        2,
    );
    capped_sum(capped_product(degree, length), quadratic)
}

/// The model, the rows still to visit, and the entries that may be visited.
pub ghost struct Hunt {
    pub work: passes::Work,
    pub left: usize,
    /// Rows with a column of two entries or fewer, visited first.
    pub sparse: Seq<usize>,
    pub general: Seq<usize>,
}

/// Some entry is in a column of two entries or fewer, from place `k` on.
pub open spec fn has_sparse_pivot(
    a: Map<(int, int), Real>,
    entries: Seq<(usize, Real)>,
    k: int,
) -> bool
    decreases entries.len() - k,
{
    if k >= entries.len() {
        false
    } else {
        linked::line_items(a, true, entries[k].0 as int).len() <= 2 || has_sparse_pivot(
            a,
            entries,
            k + 1,
        )
    }
}

/// The equalities are sorted by whether they have a sparse pivot, row by row.
pub open spec fn sorted_out(h: Hunt, i: int) -> Hunt
    decreases h.work.model.rows@.len() - i,
{
    let model = h.work.model;
    let entries = listing::line(model.a@, false, i);
    if i >= model.rows@.len() {
        h
    } else if (model.rows@[i] matches RowDomain::Linear(b) && b.is_equality()) && 2
        <= entries.len() <= h.left {
        let left = (h.left - entries.len()) as usize;
        if has_sparse_pivot(model.a@, entries, 0) {
            sorted_out(Hunt { left, sparse: queues::scheduled(h.sparse, i as usize), ..h }, i + 1)
        } else {
            sorted_out(Hunt { left, general: queues::scheduled(h.general, i as usize), ..h }, i + 1)
        }
    } else {
        sorted_out(h, i + 1)
    }
}

fn sparse_pivot(model: &Model, entries: &Entries) -> (b: bool)
    requires
        model.wf(),
        forall|k: int| 0 <= k < entries@.len() ==> (#[trigger] entries@[k]).0 < model.bounds@.len(),
    ensures
        b == has_sparse_pivot(model.a@, entries@, 0),
{
    let mut k: usize = 0;
    while k < entries.len()
        invariant
            k <= entries@.len(),
            model.wf(),
            forall|k: int|
                0 <= k < entries@.len() ==> (#[trigger] entries@[k]).0 < model.bounds@.len(),
            has_sparse_pivot(model.a@, entries@, 0) == has_sparse_pivot(
                model.a@,
                entries@,
                k as int,
            ),
        decreases entries@.len() - k,
    {
        assert(entries@[k as int].0 < model.bounds@.len());
        if model.a.column(entries[k].0).len() <= 2 {
            return true;
        }
        k = k + 1;
    }
    false
}

fn sort_out<E: Fn() -> bool>(
    model: &Model,
    allowance: usize,
    expired: &E,
    Ghost(objective): Ghost<Objective>,
) -> (r: Option<(Worklist, Worklist, usize)>)
    requires
        model.wf(),
        call_requires(*expired, ()),
    ensures
        match r {
            None => call_ensures(*expired, (), true),
            Some((sparse, general, left)) => {
                &&& sparse.wf()
                &&& general.wf()
                &&& sorted_out(
                    Hunt {
                        work: passes::work(*model, objective),
                        left: allowance,
                        sparse: Seq::empty(),
                        general: Seq::empty(),
                    },
                    0,
                ) == (Hunt {
                    work: passes::work(*model, objective),
                    left,
                    sparse: sparse@,
                    general: general@,
                })
            },
        },
{
    let mut sparse = Worklist::new(model.rows.len());
    let mut general = Worklist::new(model.rows.len());
    let mut left: usize = allowance;
    let ghost start = Hunt {
        work: passes::work(*model, objective),
        left: allowance,
        sparse: Seq::empty(),
        general: Seq::empty(),
    };
    proof {
        model.a.stored_positions();
    }
    let mut i: usize = 0;
    while i < model.rows.len()
        invariant
            i <= model.rows@.len() < usize::MAX,
            model.wf(),
            call_requires(*expired, ()),
            sparse.wf(),
            general.wf(),
            start.work == passes::work(*model, objective),
            sorted_out(start, 0) == sorted_out(
                Hunt { work: start.work, left, sparse: sparse@, general: general@ },
                i as int,
            ),
        decreases model.rows@.len() - i,
    {
        if i % 256 == 0 && expired() {
            return None;
        }
        let equality = match model.rows[i] {
            RowDomain::Linear(b) => b.equality(),
            _ => false,
        };
        if equality {
            let entries = model.row_entries(i);
            if entries.len() >= 2 && entries.len() <= left {
                left = left - entries.len();
                if sparse_pivot(model, &entries) {
                    sparse.push(i);
                } else {
                    general.push(i);
                }
            }
        }
        i = i + 1;
    }
    Some((sparse, general, left))
}

impl<
    P: Fn(Real, Real) -> Real,
    T: Fn(Real, Real) -> Real,
    D: Fn(Real, Real) -> Real,
    H: Fn(Real, Real) -> Real,
> Arithmetic<P, T, D, H> {
    /// The bound that one side of a row implies, and the work left. Computing a
    /// residual anew costs a visit of the row; without that much work there is no
    /// bound.
    pub open spec fn implied_within(
        &self,
        activity: Activity,
        entries: Seq<(usize, Real)>,
        bounds: Seq<Bounds>,
        j: usize,
        a: Real,
        rhs: Bounds,
        lower: bool,
        left: usize,
    ) -> (Option<Real>, usize) {
        let side = if lower {
            rhs.lower
        } else {
            rhs.upper
        };
        let e = activity.end(lower);
        let term = self.term(a, bounds[j as int], lower);
        let own: int = if term.finite() {
            0
        } else {
            1
        };
        let again = side.finite() && self.excluded(e, term) is None && e.infinite == own;
        if again && left < entries.len() {
            (None, left)
        } else {
            (
                self.implied_from(activity, entries, bounds, j, a, rhs, lower),
                if again {
                    (left - entries.len()) as usize
                } else {
                    left
                },
            )
        }
    }

    fn imply_within<E: Fn() -> bool>(
        &self,
        activity: Activity,
        entries: &Entries,
        bounds: &Vec<Bounds>,
        j: usize,
        a: Real,
        rhs: Bounds,
        lower: bool,
        left: usize,
        expired: &E,
    ) -> (r: (Option<Real>, usize))
        requires
            self.wf(),
            j < bounds@.len(),
            forall|k: int| 0 <= k < entries@.len() ==> (#[trigger] entries@[k]).0 < bounds@.len(),
            call_requires(*expired, ()),
        ensures
            r.1 <= left,
            r.0 is None || r.0 == self.implied_from(
                activity,
                entries@,
                bounds@,
                j,
                a,
                rhs,
                lower,
            ),
            !call_ensures(*expired, (), true) ==> r == self.implied_within(
                activity,
                entries@,
                bounds@,
                j,
                a,
                rhs,
                lower,
                left,
            ),
    {
        let (side, e): (Real, crate::activity::Extreme) = if lower {
            (rhs.lower, activity.max)
        } else {
            (rhs.upper, activity.min)
        };
        let term = self.term_of(a, bounds[j], lower);
        let own: usize = if term.is_finite() {
            0
        } else {
            1
        };
        let again = side.is_finite() && self.excluding(e, term).is_none() && e.infinite == own;
        if again {
            if left < entries.len() || expired() {
                return (None, left);
            }
            let r = self.implied_from_side(activity, entries, bounds, j, a, rhs, lower);
            return (r, left - entries.len());
        }
        (self.implied_from_side(activity, entries, bounds, j, a, rhs, lower), left)
    }

    /// One entry of an equality as a pivot, and the work left.
    pub open spec fn candidate(
        &self,
        w: passes::Work,
        options: EqualitySettings,
        entries: Seq<(usize, Real)>,
        activity: Activity,
        rhs: Bounds,
        entry: (usize, Real),
        left: usize,
    ) -> (Option<Candidate>, usize) {
        let (j, a) = entry;
        let relative = relative_size(options);
        let high = sparsify::largest(entries, zero(), 0);
        let degree = linked::line_items(w.model.a@, true, j as int).len();
        let length = entries.len();
        if degree < options.min_column_length || degree > 2 && (length > options.max_row_length
            || degree > options.max_column_length) || options.require_linear_variable
            && listing::line(w.objective.p@, false, j as int).len() > 0 || a.absolute().lt(high)
            && (relative.same(one()) || self.quotient(a.absolute(), high).lt(relative)) {
            (None, left)
        } else {
            let first = self.implied_within(
                activity,
                entries,
                w.model.bounds@,
                j,
                a,
                rhs,
                true,
                left,
            );
            let second = self.implied_within(
                activity,
                entries,
                w.model.bounds@,
                j,
                a,
                rhs,
                false,
                first.1,
            );
            let (low, up) = if zero().lt(a) {
                (first.0, second.0)
            } else {
                (second.0, first.0)
            };
            let implied = Bounds {
                lower: match low {
                    Some(v) => v,
                    None => neg_infinity(),
                },
                upper: match up {
                    Some(v) => v,
                    None => infinity(),
                },
            };
            if trees::unbounded(choices::not_implied(w.model.bounds@[j as int], implied)) {
                let estimate = estimated(w.objective, j as int, degree, length) as usize;
                (
                    Some(
                        Candidate {
                            rank: if options.cost_aware {
                                estimate
                            } else {
                                degree as usize
                            },
                            degree: degree as usize,
                            column: j,
                            estimate,
                        },
                    ),
                    second.1,
                )
            } else {
                (None, second.1)
            }
        }
    }

    /// Bounds that a row implies for a variable, as far as they were computed,
    /// make those of the variable needless.
    pub open spec fn frees(
        &self,
        w: passes::Work,
        entries: Seq<(usize, Real)>,
        rhs: Bounds,
        entry: (usize, Real),
        first: Option<Real>,
        second: Option<Real>,
    ) -> bool {
        let (j, a) = entry;
        let activity = self.span(entries, w.model.bounds@);
        let (low, up) = if zero().lt(a) {
            (first, second)
        } else {
            (second, first)
        };
        let implied = Bounds {
            lower: match low {
                Some(v) => v,
                None => neg_infinity(),
            },
            upper: match up {
                Some(v) => v,
                None => infinity(),
            },
        };
        &&& first is None || first == self.implied_from(
            activity,
            entries,
            w.model.bounds@,
            j,
            a,
            rhs,
            true,
        )
        &&& second is None || second == self.implied_from(
            activity,
            entries,
            w.model.bounds@,
            j,
            a,
            rhs,
            false,
        )
        &&& trees::unbounded(choices::not_implied(w.model.bounds@[j as int], implied))
    }

    /// A candidate whose own row makes its bounds needless.
    pub open spec fn vouched(
        &self,
        w: passes::Work,
        entries: Seq<(usize, Real)>,
        rhs: Bounds,
        c: Candidate,
    ) -> bool {
        &&& c.degree == linked::line_items(w.model.a@, true, c.column as int).len()
        &&& exists|k: int, first: Option<Real>, second: Option<Real>|
            0 <= k < entries.len() && entries[k].0 == c.column && #[trigger] self.frees(
                w,
                entries,
                rhs,
                entries[k],
                first,
                second,
            )
    }

    fn candidate_of<E: Fn() -> bool>(
        &self,
        model: &Model,
        objective: &Objective,
        options: EqualitySettings,
        entries: &Entries,
        activity: Activity,
        rhs: Bounds,
        entry: (usize, Real),
        left: usize,
        expired: &E,
        Ghost(place): Ghost<int>,
    ) -> (r: (Option<Candidate>, usize))
        requires
            self.wf(),
            model.wf(),
            objective.wf(),
            objective.c@.len() == model.bounds@.len(),
            0 <= place < entries@.len(),
            entry == entries@[place],
            activity == self.span(entries@, model.bounds@),
            entry.0 < model.bounds@.len(),
            entries@.len() > 0,
            forall|k: int|
                0 <= k < entries@.len() ==> (#[trigger] entries@[k]).0 < model.bounds@.len(),
            call_requires(*expired, ()),
        ensures
            r.1 <= left,
            r.0 matches Some(c) ==> c.column == entry.0 && self.vouched(
                passes::work(*model, *objective),
                entries@,
                rhs,
                c,
            ),
            !call_ensures(*expired, (), true) ==> r == self.candidate(
                passes::work(*model, *objective),
                options,
                entries@,
                activity,
                rhs,
                entry,
                left,
            ),
    {
        let (j, a): (usize, Real) = entry;
        let relative = if zero().less(options.relative_pivot) && options.relative_pivot.at_most(
            one(),
        ) {
            options.relative_pivot
        } else {
            one()
        };
        let high = sparsify::largest_of(entries);
        let degree: usize = model.a.column(j).len();
        let length: usize = entries.len();
        let terms = objective.p.row(j).to_vec();
        proof {
            listing::line_is(terms@, objective.p@, false, j as int);
        }
        if degree < options.min_column_length || degree > 2 && (length > options.max_row_length
            || degree > options.max_column_length) || options.require_linear_variable
            && terms.len() > 0 || a.abs().less(high) && (relative.equals(one())
            || self.quotient_of(a.abs(), high).less(relative)) {
            return (None, left);
        }
        let (first, left): (Option<Real>, usize) = self.imply_within(
            activity,
            entries,
            &model.bounds,
            j,
            a,
            rhs,
            true,
            left,
            expired,
        );
        let (second, left): (Option<Real>, usize) = self.imply_within(
            activity,
            entries,
            &model.bounds,
            j,
            a,
            rhs,
            false,
            left,
            expired,
        );
        let (low, up): (Option<Real>, Option<Real>) = if zero().less(a) {
            (first, second)
        } else {
            (second, first)
        };
        let implied = Bounds {
            lower: match low {
                Some(v) => v,
                None => neg_infinity(),
            },
            upper: match up {
                Some(v) => v,
                None => infinity(),
            },
        };
        if !trees::is_unbounded(non_implied_bounds(model.bounds[j], implied)) {
            return (None, left);
        }
        let estimate: usize = estimate_of(objective, j, degree, length);
        let rank: usize = if options.cost_aware {
            estimate
        } else {
            degree
        };
        assert(self.frees(
            passes::work(*model, *objective),
            entries@,
            rhs,
            entries@[place],
            first,
            second,
        ));
        (Some(Candidate { rank, degree, column: j, estimate }), left)
    }

    /// The pivots of an equality by rank, and the work left, from place `k` of
    /// its entries on.
    pub open spec fn candidates(
        &self,
        w: passes::Work,
        options: EqualitySettings,
        entries: Seq<(usize, Real)>,
        activity: Activity,
        rhs: Bounds,
        list: Seq<Candidate>,
        left: usize,
        k: int,
    ) -> (Seq<Candidate>, usize)
        decreases entries.len() - k,
    {
        if k >= entries.len() {
            (list, left)
        } else {
            let (found, rest) = self.candidate(
                w,
                options,
                entries,
                activity,
                rhs,
                entries[k],
                left,
            );
            self.candidates(
                w,
                options,
                entries,
                activity,
                rhs,
                match found {
                    Some(c) => placed(list, c),
                    None => list,
                },
                rest,
                k + 1,
            )
        }
    }

    fn candidates_of<E: Fn() -> bool>(
        &self,
        model: &Model,
        objective: &Objective,
        options: EqualitySettings,
        entries: &Entries,
        activity: Activity,
        rhs: Bounds,
        allowance: usize,
        expired: &E,
    ) -> (r: (Vec<Candidate>, usize))
        requires
            self.wf(),
            model.wf(),
            objective.wf(),
            objective.c@.len() == model.bounds@.len(),
            entries@.len() > 0,
            activity == self.span(entries@, model.bounds@),
            forall|k: int|
                0 <= k < entries@.len() ==> (#[trigger] entries@[k]).0 < model.bounds@.len(),
            call_requires(*expired, ()),
        ensures
            r.1 <= allowance,
            forall|k: int|
                0 <= k < r.0@.len() ==> (#[trigger] r.0@[k]).column < model.bounds@.len()
                    && self.vouched(passes::work(*model, *objective), entries@, rhs, r.0@[k]),
            ranked(r.0@),
            !call_ensures(*expired, (), true) ==> (r.0@, r.1) == self.candidates(
                passes::work(*model, *objective),
                options,
                entries@,
                activity,
                rhs,
                Seq::empty(),
                allowance,
                0,
            ),
    {
        let ghost w = passes::work(*model, *objective);
        let mut list: Vec<Candidate> = Vec::new();
        let mut left: usize = allowance;
        let mut k: usize = 0;
        assert(list@ =~= Seq::<Candidate>::empty());
        while k < entries.len()
            invariant
                k <= entries@.len(),
                self.wf(),
                model.wf(),
                objective.wf(),
                objective.c@.len() == model.bounds@.len(),
                w == passes::work(*model, *objective),
                entries@.len() > 0,
                activity == self.span(entries@, model.bounds@),
                forall|k: int|
                    0 <= k < entries@.len() ==> (#[trigger] entries@[k]).0 < model.bounds@.len(),
                call_requires(*expired, ()),
                left <= allowance,
                forall|t: int|
                    0 <= t < list@.len() ==> (#[trigger] list@[t]).column < model.bounds@.len()
                        && self.vouched(w, entries@, rhs, list@[t]),
                ranked(list@),
                !call_ensures(*expired, (), true) ==> self.candidates(
                    w,
                    options,
                    entries@,
                    activity,
                    rhs,
                    Seq::empty(),
                    allowance,
                    0,
                ) == self.candidates(
                    w,
                    options,
                    entries@,
                    activity,
                    rhs,
                    list@,
                    left,
                    k as int,
                ),
            decreases entries@.len() - k,
        {
            assert(entries@[k as int].0 < model.bounds@.len());
            let (found, rest): (Option<Candidate>, usize) = self.candidate_of(
                model,
                objective,
                options,
                entries,
                activity,
                rhs,
                entries[k],
                left,
                expired,
                Ghost(k as int),
            );
            if let Some(c) = found {
                let ghost before = list@;
                proof {
                    placing_keeps_rank(before, c);
                }
                place(&mut list, c);
                assert forall|t: int| 0 <= t < list@.len() implies (#[trigger] list@[t]).column
                    < model.bounds@.len() && self.vouched(w, entries@, rhs, list@[t]) by {
                    if list@[t] != c {
                        assert(before.contains(list@[t]));
                        let s = choose|s: int| 0 <= s < before.len() && before[s] == list@[t];
                        assert(before[s].column < model.bounds@.len());
                    }
                }
            }
            left = rest;
            k = k + 1;
        }
        (list, left)
    }

    /// What trying a candidate costs.
    pub open spec fn trial_cost(w: passes::Work, c: Candidate) -> int {
        pivots::rows_cost(
            w.model.a@,
            listing::line(w.model.a@, true, c.column as int),
            c.estimate as int,
            0,
        )
    }

    /// The work left before candidate `k`: the ones before it were tried where
    /// they could be paid for.
    pub open spec fn unspent(w: passes::Work, list: Seq<Candidate>, left: usize, k: int) -> usize
        decreases k,
    {
        if k <= 0 {
            left
        } else {
            let before = Self::unspent(w, list, left, k - 1);
            let cost = Self::trial_cost(w, list[k - 1]);
            if cost > before {
                before
            } else {
                (before - cost) as usize
            }
        }
    }

    /// Candidate `k` can be paid for.
    pub open spec fn payable(w: passes::Work, list: Seq<Candidate>, left: usize, k: int) -> bool {
        Self::trial_cost(w, list[k]) <= Self::unspent(w, list, left, k)
    }

    /// How many new entries a pivot may make.
    pub open spec fn hunting_fill(
        options: EqualitySettings,
        max_fill: usize,
        degree: usize,
        length: nat,
    ) -> nat {
        let removed = sparsify::capped(degree + length - 1);
        if options.preserve_nonzeros && removed < max_fill {
            removed as nat
        } else {
            max_fill as nat
        }
    }

    /// The first candidate that could be paid for and was not refused took its
    /// row with it; `hit` is its place, or the length of the list.
    pub open spec fn hunted<E: Fn() -> bool>(
        &self,
        w: passes::Work,
        v: passes::Work,
        i: usize,
        list: Seq<Candidate>,
        left: usize,
        length: nat,
        options: EqualitySettings,
        max_fill: usize,
        allow_growth: bool,
        expired: E,
        hit: int,
    ) -> bool {
        &&& 0 <= hit <= list.len()
        &&& forall|k: int|
            0 <= k < hit && #[trigger] Self::payable(w, list, left, k) ==> self.declined(
                w,
                i,
                list[k].column,
                Bounds::free(),
                Self::hunting_fill(options, max_fill, list[k].degree, length),
                allow_growth,
                expired,
            )
        &&& hit == list.len() ==> v == w
        &&& hit < list.len() ==> Self::payable(w, list, left, hit) && self.made(
            w,
            v,
            i,
            list[hit].column,
            Bounds::free(),
            Self::hunting_fill(options, max_fill, list[hit].degree, length),
            allow_growth,
            expired,
        )
    }

    /// Visit one equality. Returns the work left and, where a pivot went, the
    /// rows that it was in.
    #[verifier::rlimit(40)]
    fn hunt_row<E: Fn() -> bool>(
        &self,
        model: &mut Model,
        objective: &mut Objective,
        i: usize,
        options: EqualitySettings,
        max_fill: usize,
        allow_growth: bool,
        allowance: usize,
        expired: &E,
    ) -> (r: (usize, Option<Entries>, Ghost<int>))
        requires
            self.wf(),
            old(model).wf(),
            old(objective).wf(),
            old(objective).c@.len() == old(model).bounds@.len(),
            call_requires(*expired, ()),
        ensures
            final(model).wf(),
            final(objective).wf(),
            final(objective).c@.len() == final(model).bounds@.len(),
            r.0 <= allowance,
            r.1 is None ==> *final(model) == *old(model) && *final(objective) == *old(objective),
            r.1 is Some ==> r.0 < allowance && final(model).tape@.len() == old(model).tape@.len()
                + 1,
            r.1 matches Some(rows) ==> forall|k: int|
                0 <= k < rows@.len() ==> (#[trigger] rows@[k]).0 < usize::MAX,
            self.row_seen(
                passes::work(*old(model), *old(objective)),
                passes::work(*final(model), *final(objective)),
                i,
                options,
                max_fill,
                allow_growth,
                *expired,
                allowance,
                r.0,
                rows_of(r.1),
                r.2@,
            ),
    {
        let ghost w = passes::work(*model, *objective);
        let nothing: Option<Entries> = None;
        proof {
            model.a.stored_positions();
            assert(rows_of(nothing) == None::<Seq<(usize, Real)>>);
        }
        let rhs = if i < model.rows.len() {
            match model.rows[i] {
                RowDomain::Linear(b) => b,
                _ => Bounds::free(),
            }
        } else {
            Bounds::free()
        };
        if i >= model.rows.len() || !rhs.equality() {
            assert(self.row_visited(
                w,
                w,
                i,
                options,
                max_fill,
                allow_growth,
                *expired,
                allowance,
                allowance,
                rows_of(nothing),
                0,
            ));
            return (allowance, nothing, Ghost(0));
        }
        let entries = model.row_entries(i);
        let length: usize = entries.len();
        let scan: usize = capped_product(length, 3);
        if length < 2 || scan > allowance {
            assert(self.row_visited(
                w,
                w,
                i,
                options,
                max_fill,
                allow_growth,
                *expired,
                allowance,
                allowance,
                rows_of(nothing),
                0,
            ));
            return (allowance, nothing, Ghost(0));
        }
        let activity = self.activity_of(&entries, &model.bounds, None);
        assert(activity == self.span(entries@, model.bounds@));
        let (mut list, start): (Vec<Candidate>, usize) = self.candidates_of(
            model,
            objective,
            options,
            &entries,
            activity,
            rhs,
            allowance - scan,
            expired,
        );
        let ghost all = list@;
        if list.len() > options.max_pivot_attempts {
            list.truncate(options.max_pivot_attempts);
        }
        assert(list@ =~= first_of(all, options.max_pivot_attempts as nat));
        let mut left: usize = start;
        let mut k: usize = 0;
        while k < list.len()
            invariant
                k <= list@.len(),
                self.wf(),
                model.wf(),
                objective.wf(),
                objective.c@.len() == model.bounds@.len(),
                w == passes::work(*model, *objective),
                w == passes::work(*old(model), *old(objective)),
                i < model.rows@.len() < usize::MAX,
                rows_of(nothing) == None::<Seq<(usize, Real)>>,
                model.rows@[i as int] == RowDomain::Linear(rhs),
                rhs.is_equality(),
                entries@ == listing::line(model.a@, false, i as int),
                length == entries@.len(),
                length >= 2,
                scan == sparsify::capped(length * 3),
                scan <= allowance,
                start <= allowance - scan,
                left <= start,
                list@ == first_of(all, options.max_pivot_attempts as nat),
                forall|t: int|
                    0 <= t < list@.len() ==> (#[trigger] list@[t]).column < model.bounds@.len()
                        && self.vouched(w, entries@, rhs, list@[t]),
                call_requires(*expired, ()),
                !call_ensures(*expired, (), true) ==> (all, start) == self.candidates(
                    w,
                    options,
                    entries@,
                    self.span(entries@, model.bounds@),
                    rhs,
                    Seq::empty(),
                    (allowance - scan) as usize,
                    0,
                ),
                !call_ensures(*expired, (), true) ==> left == Self::unspent(
                    w,
                    list@,
                    start,
                    k as int,
                ),
                !call_ensures(*expired, (), true) ==> forall|t: int|
                    0 <= t < k && #[trigger] Self::payable(w, list@, start, t) ==> self.declined(
                        w,
                        i,
                        list@[t].column,
                        Bounds::free(),
                        Self::hunting_fill(options, max_fill, list@[t].degree, length as nat),
                        allow_growth,
                        *expired,
                    ),
            decreases list@.len() - k,
        {
            let c = list[k];
            assert(list@[k as int].column < model.bounds@.len());
            let rows = model.column_entries(c.column);
            let cost: usize = pivots::add_rows(model, &rows, c.estimate);
            assert(cost == Self::trial_cost(w, c));
            if cost <= left && !expired() {
                let ghost held = left;
                left = left - cost;
                let removed: usize = capped_sum(c.degree, length - 1);
                let fill: usize = if options.preserve_nonzeros && removed < max_fill {
                    removed
                } else {
                    max_fill
                };
                let done = self.pivot_on(
                    model,
                    objective,
                    i,
                    c.column,
                    Bounds::free(),
                    fill,
                    allow_growth,
                    expired,
                );
                if done {
                    let found = Some(rows);
                    proof {
                        assert(rows_of(found) == Some(found->Some_0@));
                        let v = passes::work(*model, *objective);
                        assert(self.vouched(w, entries@, rhs, c));
                        assert(self.late_pivot(
                            w,
                            v,
                            i,
                            options,
                            max_fill,
                            allow_growth,
                            *expired,
                            rows_of(found)->Some_0,
                            c,
                        ));
                        if !call_ensures(*expired, (), true) {
                            assert(Self::payable(w, list@, start, k as int));
                            assert(self.hunted(
                                w,
                                v,
                                i,
                                list@,
                                start,
                                length as nat,
                                options,
                                max_fill,
                                allow_growth,
                                *expired,
                                k as int,
                            ));
                            assert(left == Self::unspent(w, list@, start, k + 1));
                            assert(self.row_visited(
                                w,
                                v,
                                i,
                                options,
                                max_fill,
                                allow_growth,
                                *expired,
                                allowance,
                                left,
                                rows_of(found),
                                k as int,
                            ));
                        }
                    }
                    return (left, found, Ghost(k as int));
                }
            }
            k = k + 1;
        }
        proof {
            if !call_ensures(*expired, (), true) {
                assert(self.hunted(
                    w,
                    w,
                    i,
                    list@,
                    start,
                    length as nat,
                    options,
                    max_fill,
                    allow_growth,
                    *expired,
                    k as int,
                ));
                assert(self.row_visited(
                    w,
                    w,
                    i,
                    options,
                    max_fill,
                    allow_growth,
                    *expired,
                    allowance,
                    left,
                    rows_of(nothing),
                    k as int,
                ));
            }
        }
        (left, nothing, Ghost(k as int))
    }

    /// A visit of one row with the work that it takes.
    pub open spec fn row_visited<E: Fn() -> bool>(
        &self,
        w: passes::Work,
        v: passes::Work,
        i: usize,
        options: EqualitySettings,
        max_fill: usize,
        allow_growth: bool,
        expired: E,
        allowance: usize,
        rest: usize,
        rows: Option<Seq<(usize, Real)>>,
        hit: int,
    ) -> bool {
        let entries = listing::line(w.model.a@, false, i as int);
        let scan = sparsify::capped((entries.len() * 3) as int);
        if i < w.model.rows@.len() && (w.model.rows@[i as int] matches RowDomain::Linear(b)
            && b.is_equality()) && entries.len() >= 2 && scan <= allowance {
            let (all, start) = self.candidates(
                w,
                options,
                entries,
                self.span(entries, w.model.bounds@),
                w.model.rows@[i as int]->Linear_0,
                Seq::empty(),
                (allowance - scan) as usize,
                0,
            );
            let list = first_of(all, options.max_pivot_attempts as nat);
            &&& self.hunted(
                w,
                v,
                i,
                list,
                start,
                entries.len(),
                options,
                max_fill,
                allow_growth,
                expired,
                hit,
            )
            &&& if hit < list.len() {
                &&& rest == Self::unspent(w, list, start, hit + 1)
                &&& rows == Some(listing::line(w.model.a@, true, list[hit].column as int))
            } else {
                &&& rest == Self::unspent(w, list, start, hit)
                &&& rows is None
            }
        } else {
            v == w && rest == allowance && rows is None
        }
    }

    /// A candidate of the row took it along.
    pub open spec fn late_pivot<E: Fn() -> bool>(
        &self,
        w: passes::Work,
        v: passes::Work,
        i: usize,
        options: EqualitySettings,
        max_fill: usize,
        allow_growth: bool,
        expired: E,
        rows: Seq<(usize, Real)>,
        c: Candidate,
    ) -> bool {
        let entries = listing::line(w.model.a@, false, i as int);
        &&& i < w.model.rows@.len()
        &&& w.model.rows@[i as int] matches RowDomain::Linear(b) && b.is_equality() && self.vouched(
            w,
            entries,
            b,
            c,
        )
        &&& rows == listing::line(w.model.a@, true, c.column as int)
        &&& self.made(
            w,
            v,
            i,
            c.column,
            Bounds::free(),
            Self::hunting_fill(options, max_fill, c.degree, entries.len()),
            allow_growth,
            expired,
        )
    }

    /// A visit of one row. Once it is late, a visit may miss candidates, but what
    /// goes is still a candidate of the row.
    pub open spec fn row_seen<E: Fn() -> bool>(
        &self,
        w: passes::Work,
        v: passes::Work,
        i: usize,
        options: EqualitySettings,
        max_fill: usize,
        allow_growth: bool,
        expired: E,
        allowance: usize,
        rest: usize,
        rows: Option<Seq<(usize, Real)>>,
        hit: int,
    ) -> bool {
        ||| self.row_visited(
            w,
            v,
            i,
            options,
            max_fill,
            allow_growth,
            expired,
            allowance,
            rest,
            rows,
            hit,
        )
        ||| call_ensures(expired, (), true) && rest <= allowance && match rows {
            None => v == w,
            Some(list) => exists|c: Candidate| #[trigger]
                self.late_pivot(
                    w,
                    v,
                    i,
                    options,
                    max_fill,
                    allow_growth,
                    expired,
                    list,
                    c,
                ),
        }
    }

    /// The next row is visited; where a pivot went, its other rows are to be
    /// visited again.
    pub open spec fn hunt_turn<E: Fn() -> bool>(
        &self,
        before: Hunt,
        after: Hunt,
        i: usize,
        options: EqualitySettings,
        max_fill: usize,
        allow_growth: bool,
        expired: E,
    ) -> bool {
        let from_sparse = before.sparse.len() > 0;
        let sparse = if from_sparse {
            before.sparse.drop_last()
        } else {
            before.sparse
        };
        &&& before.left > 0
        &&& i == if from_sparse {
            before.sparse.last()
        } else {
            before.general.last()
        }
        &&& after.general == if from_sparse {
            before.general
        } else {
            before.general.drop_last()
        }
        &&& exists|rows: Option<Seq<(usize, Real)>>, hit: int|
            {
                &&& #[trigger] self.row_seen(
                    before.work,
                    after.work,
                    i,
                    options,
                    max_fill,
                    allow_growth,
                    expired,
                    before.left,
                    after.left,
                    rows,
                    hit,
                )
                &&& after.sparse == again_listed(sparse, i, rows)
            }
    }

    pub open spec fn hunt_turns<E: Fn() -> bool>(
        &self,
        options: EqualitySettings,
        max_fill: usize,
        allow_growth: bool,
        expired: E,
    ) -> spec_fn(Hunt, Hunt, usize) -> bool {
        |before: Hunt, after: Hunt, i: usize|
            self.hunt_turn(before, after, i, options, max_fill, allow_growth, expired)
    }

    /// Substitute pivots whose bounds their own equality implies. Returns how
    /// many went.
    pub fn implied_free_equalities<E: Fn() -> bool>(
        &self,
        model: &mut Model,
        objective: &mut Objective,
        options: EqualitySettings,
        max_fill: usize,
        allow_growth: bool,
        expired: &E,
    ) -> (accepted: usize)
        requires
            self.wf(),
            old(model).wf(),
            old(objective).wf(),
            old(objective).c@.len() == old(model).bounds@.len(),
            call_requires(*expired, ()),
        ensures
            self.implied_free_equalities_done(
                passes::work(*old(model), *old(objective)),
                passes::work(*final(model), *final(objective)),
                options,
                max_fill,
                allow_growth,
                *expired,
                accepted,
            ),
    {
        let ghost turns = self.hunt_turns(options, max_fill, allow_growth, *expired);
        let ghost w0 = passes::work(*model, *objective);
        let ghost allowed = options.work_limit.allowance(
            sparsify::capped((model.a@.dom().len() * 16) as int) as usize,
        );
        let ghost first = Hunt {
            work: w0,
            left: allowed,
            sparse: Seq::empty(),
            general: Seq::empty(),
        };
        let entries: usize = model.a.nnz();
        let allowance: usize = options.work_limit.resolve(capped_product(entries, 16));
        if allowance == 0 || options.max_pivot_attempts == 0 || expired() {
            proof {
                let states: Seq<Hunt> = seq![
                    if allowance == 0 {
                        first
                    } else {
                        sorted_out(first, 0)
                    },
                ];
                let items: Seq<usize> = Seq::empty();
                sorting_keeps_work(first, 0);
                assert(passes::walk(turns, states, items));
            }
            return 0;
        }
        let (mut sparse, mut general, mut left): (Worklist, Worklist, usize) = match sort_out(
            model,
            allowance,
            expired,
            Ghost(*objective),
        ) {
            Some(found) => found,
            None => {
                proof {
                    let states: Seq<Hunt> = seq![sorted_out(first, 0)];
                    let items: Seq<usize> = Seq::empty();
                    sorting_keeps_work(first, 0);
                    assert(passes::walk(turns, states, items));
                }
                return 0;
            },
        };
        let ghost mut states: Seq<Hunt> = seq![
            Hunt { work: w0, left, sparse: sparse@, general: general@ },
        ];
        let ghost mut items: Seq<usize> = Seq::empty();
        let taped: usize = model.tape.len();
        while !sparse.is_empty() || !general.is_empty()
            invariant
                self.wf(),
                model.wf(),
                objective.wf(),
                objective.c@.len() == model.bounds@.len(),
                call_requires(*expired, ()),
                sparse.wf(),
                general.wf(),
                taped == old(model).tape@.len(),
                model.tape@.len() >= taped,
                model.tape@.len() == taped ==> *model == *old(model) && *objective == *old(
                    objective,
                ),
                allowed == options.work_limit.allowance(
                    sparsify::capped((old(model).a@.dom().len() * 16) as int) as usize,
                ),
                allowed > 0,
                first == (Hunt {
                    work: passes::work(*old(model), *old(objective)),
                    left: allowed,
                    sparse: Seq::empty(),
                    general: Seq::empty(),
                }),
                turns == self.hunt_turns(options, max_fill, allow_growth, *expired),
                options.max_pivot_attempts > 0,
                ({
                    &&& passes::walk(turns, states, items)
                    &&& states[0] == sorted_out(first, 0)
                    &&& states.last() == (Hunt {
                        work: passes::work(*model, *objective),
                        left,
                        sparse: sparse@,
                        general: general@,
                    })
                }),
            decreases left, sparse@.len() + general@.len(),
        {
            if left == 0 || expired() {
                assert(model.tape.len() == model.tape@.len());
                return model.tape.len() - taped;
            }
            let ghost before = Hunt {
                work: passes::work(*model, *objective),
                left,
                sparse: sparse@,
                general: general@,
            };
            let popped = match sparse.pop() {
                Some(i) => Some(i),
                None => general.pop(),
            };
            let i: usize = match popped {
                Some(i) => i,
                None => {
                    assert(model.tape.len() == model.tape@.len());
                    return model.tape.len() - taped;
                },
            };
            let ghost listed = sparse@;
            let (rest, rows, Ghost(hit)): (usize, Option<Entries>, Ghost<int>) = self.hunt_row(
                model,
                objective,
                i,
                options,
                max_fill,
                allow_growth,
                left,
                expired,
            );
            left = rest;
            let ghost again = rows_of(rows);
            if let Some(rows) = rows {
                list_again(&mut sparse, i, &rows);
            }
            assert(sparse@ == again_listed(listed, i, again));
            proof {
                {
                    let after = Hunt {
                        work: passes::work(*model, *objective),
                        left,
                        sparse: sparse@,
                        general: general@,
                    };
                    assert(self.row_seen(
                        before.work,
                        after.work,
                        i,
                        options,
                        max_fill,
                        allow_growth,
                        *expired,
                        before.left,
                        after.left,
                        again,
                        hit,
                    ));
                    assert(self.hunt_turn(
                        before,
                        after,
                        i,
                        options,
                        max_fill,
                        allow_growth,
                        *expired,
                    ));
                    passes::walk_on(turns, states, items, after, i);
                    states = states.push(after);
                    items = items.push(i);
                }
            }
        }
        assert(model.tape.len() == model.tape@.len());
        model.tape.len() - taped
    }
}

/// The first `n` candidates.
pub open spec fn first_of(list: Seq<Candidate>, n: nat) -> Seq<Candidate> {
    if list.len() > n {
        list.take(n as int)
    } else {
        list
    }
}

pub open spec fn rows_of(rows: Option<Entries>) -> Option<Seq<(usize, Real)>> {
    match rows {
        Some(list) => Some(list@),
        None => None,
    }
}

/// The rows of a pivot are listed again, but for the one it left with, from
/// place `k` of its entries on.
pub open spec fn relisted(sparse: Seq<usize>, i: usize, rows: Seq<(usize, Real)>, k: int) -> Seq<
    usize,
>
    decreases rows.len() - k,
{
    if k >= rows.len() {
        sparse
    } else {
        relisted(
            if rows[k].0 != i {
                queues::scheduled(sparse, rows[k].0)
            } else {
                sparse
            },
            i,
            rows,
            k + 1,
        )
    }
}

pub open spec fn again_listed(
    sparse: Seq<usize>,
    i: usize,
    rows: Option<Seq<(usize, Real)>>,
) -> Seq<usize> {
    match rows {
        Some(list) => relisted(sparse, i, list, 0),
        None => sparse,
    }
}

fn list_again(sparse: &mut Worklist, i: usize, rows: &Entries)
    requires
        old(sparse).wf(),
        forall|k: int| 0 <= k < rows@.len() ==> (#[trigger] rows@[k]).0 < usize::MAX,
    ensures
        final(sparse).wf(),
        final(sparse)@ == relisted(old(sparse)@, i, rows@, 0),
{
    let mut k: usize = 0;
    while k < rows.len()
        invariant
            k <= rows@.len(),
            sparse.wf(),
            forall|k: int| 0 <= k < rows@.len() ==> (#[trigger] rows@[k]).0 < usize::MAX,
            relisted(old(sparse)@, i, rows@, 0) == relisted(sparse@, i, rows@, k as int),
        decreases rows@.len() - k,
    {
        assert(rows@[k as int].0 < usize::MAX);
        if rows[k].0 != i {
            sparse.push(rows[k].0);
        }
        k = k + 1;
    }
}

/// Sorting the rows out leaves the model alone.
proof fn sorting_keeps_work(h: Hunt, i: int)
    ensures
        sorted_out(h, i).work == h.work,
    decreases h.work.model.rows@.len() - i,
{
    let model = h.work.model;
    let entries = listing::line(model.a@, false, i);
    if i < model.rows@.len() {
        let left = (h.left - entries.len()) as usize;
        sorting_keeps_work(
            Hunt { left, sparse: queues::scheduled(h.sparse, i as usize), ..h },
            i + 1,
        );
        sorting_keeps_work(
            Hunt { left, general: queues::scheduled(h.general, i as usize), ..h },
            i + 1,
        );
        sorting_keeps_work(h, i + 1);
    }
}

impl<
    P: Fn(Real, Real) -> Real,
    T: Fn(Real, Real) -> Real,
    D: Fn(Real, Real) -> Real,
    H: Fn(Real, Real) -> Real,
> Arithmetic<P, T, D, H> {
    /// What a pass over the implied free columns does and reports.
    pub open spec fn implied_free_equalities_done<E: Fn() -> bool>(
        &self,
        before: Work,
        after: Work,
        options: EqualitySettings,
        max_fill: usize,
        allow_growth: bool,
        expired: E,
        accepted: usize,
    ) -> bool {
        &&& after.model.wf()
        &&& after.objective.wf()
        &&& after.objective.c@.len() == after.model.bounds@.len()
        &&& after.model.tape@.len() == before.model.tape@.len() + accepted
        &&& accepted == 0 ==> after.model == before.model && after.objective == before.objective
        &&& options.max_pivot_attempts == 0 ==> accepted == 0
        &&& options.max_pivot_attempts > 0 ==> exists|
                states: Seq<Hunt>,
                items: Seq<usize>,
            |
                {
                    let allowance = options.work_limit.allowance(
                        sparsify::capped((before.model.a@.dom().len() * 16) as int) as usize,
                    );
                    let start = Hunt {
                        work: before,
                        left: allowance,
                        sparse: Seq::empty(),
                        general: Seq::empty(),
                    };
                    let end = states.last();
                    &&& #[trigger] passes::walk(
                        self.hunt_turns(options, max_fill, allow_growth, expired),
                        states,
                        items,
                    )
                    &&& states[0] == if allowance == 0 {
                        start
                    } else {
                        sorted_out(start, 0)
                    }
                    &&& end.work == after
                    &&& end.left == 0 || end.sparse.len() == 0 && end.general.len() == 0
                        || call_ensures(expired, (), true)
                }
    }
}

} // verus!
