//! Sparse quadratic objective updates under affine substitutions.
//!
//! Replacing `x_k` by `offset + sum slope_j x_j` turns the Hessian `P` into
//! `T' P T` and the linear coefficients `c` into `T'(c + P d)`.

use crate::linked::{self, Entries, NONE};
use crate::merge;
use crate::number::{zero, Real};
use crate::symmetric::{self, SymmetricMatrix};
use crate::tape::Gradient;
use vstd::prelude::*;

verus! {

/// Why a substitution is refused.
#[derive(Clone, Copy, Debug, PartialEq, Eq, Structural)]
pub enum Failure {
    Numerical,
    ConstraintFill,
    QuadraticFill,
    HessianGrowth,
    Deadline,
    /// The coefficient storage cannot hold the result.
    Capacity,
}

/// A quadratic objective: `0.5 x'Px + c'x + constant`.
pub struct Objective {
    pub p: SymmetricMatrix,
    pub c: Vec<Real>,
    pub constant: Real,
}

/// A variable that a substitution touches, with its Hessian coefficient in the
/// row of the substituted variable and its coefficient in the substitution.
#[derive(Clone, Copy, Debug, PartialEq, Eq, Structural)]
pub struct Affected {
    pub column: usize,
    pub curvature: Real,
    pub slope: Real,
    pub curved: bool,
    pub sloped: bool,
}

/// The union of two increasing supports.
pub open spec fn affected(p: Seq<(usize, Real)>, s: Seq<(usize, Real)>) -> Seq<Affected>
    decreases p.len() + s.len(),
{
    if p.len() == 0 && s.len() == 0 {
        Seq::empty()
    } else {
        let curved = s.len() == 0 || p.len() > 0 && p[0].0 <= s[0].0;
        let sloped = p.len() == 0 || s.len() > 0 && s[0].0 <= p[0].0;
        let here = Affected {
            column: if curved {
                p[0].0
            } else {
                s[0].0
            },
            curvature: if curved {
                p[0].1
            } else {
                zero()
            },
            slope: if sloped {
                s[0].1
            } else {
                zero()
            },
            curved,
            sloped,
        };
        seq![here] + if curved && sloped {
            affected(p.skip(1), s.skip(1))
        } else if curved {
            affected(p.skip(1), s)
        } else if sloped {
            affected(p, s.skip(1))
        } else {
            Seq::empty()
        }
    }
}

/// Entries other than that of one column.
pub open spec fn others(entries: Seq<(usize, Real)>, k: usize) -> Seq<(usize, Real)>
    decreases entries.len(),
{
    if entries.len() == 0 {
        Seq::empty()
    } else {
        let before = others(entries.drop_last(), k);
        if entries.last().0 == k {
            before
        } else {
            before.push(entries.last())
        }
    }
}

pub fn without(entries: &Entries, k: usize) -> (out: Entries)
    ensures
        out@ == others(entries@, k),
{
    let mut out: Entries = Vec::new();
    let mut a: usize = 0;
    assert(entries@.take(0) =~= Seq::<(usize, Real)>::empty());
    assert(out@ =~= Seq::<(usize, Real)>::empty());
    while a < entries.len()
        invariant
            a <= entries@.len(),
            out@ == others(entries@.take(a as int), k),
        decreases entries@.len() - a,
    {
        assert(entries@.take(a + 1).drop_last() =~= entries@.take(a as int));
        assert(entries@.take(a + 1).last() == entries@[a as int]);
        if entries[a].0 != k {
            out.push(entries[a]);
        }
        a = a + 1;
    }
    assert(entries@.take(a as int) =~= entries@);
    out
}

pub proof fn others_are_listed(entries: Seq<(usize, Real)>, k: usize, a: int)
    requires
        0 <= a < others(entries, k).len(),
    ensures
        entries.contains(others(entries, k)[a]),
        others(entries, k)[a].0 != k,
    decreases entries.len(),
{
    if entries.len() > 0 {
        let before = others(entries.drop_last(), k);
        if entries.last().0 != k && a == before.len() {
            assert(entries[entries.len() - 1] == others(entries, k)[a]);
        } else {
            others_are_listed(entries.drop_last(), k, a);
            let b = choose|b: int|
                0 <= b < entries.drop_last().len() && entries.drop_last()[b] == before[a];
            assert(entries[b] == before[a]);
        }
    }
}

/// Entries of other columns stay.
pub proof fn others_keep(entries: Seq<(usize, Real)>, k: usize, a: int)
    requires
        0 <= a < entries.len(),
        entries[a].0 != k,
    ensures
        others(entries, k).contains(entries[a]),
    decreases entries.len(),
{
    let before = others(entries.drop_last(), k);
    if a == entries.len() - 1 {
        assert(others(entries, k)[before.len() as int] == entries[a]);
    } else {
        assert(entries.drop_last()[a] == entries[a]);
        others_keep(entries.drop_last(), k, a);
        let b = choose|b: int| 0 <= b < before.len() && before[b] == entries[a];
        assert(others(entries, k)[b] == entries[a]);
    }
}

/// Leaving out one column keeps the order.
pub proof fn others_increase(entries: Seq<(usize, Real)>, k: usize)
    requires
        merge::increasing(entries),
    ensures
        merge::increasing(others(entries, k)),
        others(entries, k).len() > 0 ==> entries.len() > 0 && others(entries, k).last().0
            <= entries.last().0,
    decreases entries.len(),
{
    if entries.len() > 0 {
        let before = entries.drop_last();
        assert forall|a: int, b: int| 0 <= a < b < before.len() implies (#[trigger] before[a]).0 < (
        #[trigger] before[b]).0 by {
            assert(entries[a].0 < entries[b].0);
        }
        others_increase(before, k);
        let (x, y) = (others(before, k), others(entries, k));
        if x.len() > 0 {
            assert(before.last() == entries[entries.len() - 2]);
            assert(entries[entries.len() - 2].0 < entries[entries.len() - 1].0);
        }
        assert forall|a: int, b: int| 0 <= a < b < y.len() implies (#[trigger] y[a]).0 < (
        #[trigger] y[b]).0 by {
            if b == x.len() {
                if a < x.len() - 1 {
                    assert(x[a].0 < x[x.len() - 1].0);
                }
                assert(x.last() == x[x.len() - 1]);
            } else {
                assert(x[a].0 < x[b].0);
            }
        }
    }
}

pub(crate) fn support(p: &Entries, s: &Entries) -> (out: Vec<Affected>)
    requires
        merge::increasing(p@),
        merge::increasing(s@),
    ensures
        out@ == affected(p@, s@),
        forall|a: int| 0 <= a < out@.len() ==> (#[trigger] out@[a]).column >= a,
        forall|a: int, b: int|
            0 <= a < b < out@.len() ==> (#[trigger] out@[a]).column < (#[trigger] out@[b]).column,
        forall|a: int|
            0 <= a < out@.len() ==> (exists|b: int|
                0 <= b < p@.len() && (#[trigger] p@[b]).0 == (#[trigger] out@[a]).column) || (
            exists|b: int| 0 <= b < s@.len() && (#[trigger] s@[b]).0 == out@[a].column),
        out@.len() <= p@.len() + s@.len(),
{
    let ghost goal = affected(p@, s@);
    let mut out: Vec<Affected> = Vec::new();
    let mut i: usize = 0;
    let mut j: usize = 0;
    proof {
        assert(p@.skip(0) =~= p@);
        assert(s@.skip(0) =~= s@);
        assert(out@ + goal =~= goal);
    }
    while i < p.len() || j < s.len()
        invariant
            i <= p@.len(),
            j <= s@.len(),
            merge::increasing(p@),
            merge::increasing(s@),
            out@ + affected(p@.skip(i as int), s@.skip(j as int)) == goal,
            out@.len() <= i + j,
            i < p@.len() ==> p@[i as int].0 >= out@.len(),
            j < s@.len() ==> s@[j as int].0 >= out@.len(),
            forall|a: int| 0 <= a < out@.len() ==> (#[trigger] out@[a]).column >= a,
            forall|a: int|
                0 <= a < out@.len() ==> {
                    &&& i < p@.len() ==> (#[trigger] out@[a]).column < p@[i as int].0
                    &&& j < s@.len() ==> out@[a].column < s@[j as int].0
                },
            forall|a: int, b: int|
                0 <= a < b < out@.len() ==> (#[trigger] out@[a]).column < (
                #[trigger] out@[b]).column,
            forall|a: int|
                0 <= a < out@.len() ==> (exists|b: int|
                    0 <= b < p@.len() && (#[trigger] p@[b]).0 == (#[trigger] out@[a]).column) || (
                exists|b: int| 0 <= b < s@.len() && (#[trigger] s@[b]).0 == out@[a].column),
        decreases p@.len() - i + s@.len() - j,
    {
        let ghost ps = p@.skip(i as int);
        let ghost ss = s@.skip(j as int);
        let ghost before = out@;
        proof {
            if i < p@.len() {
                assert(ps[0] == p@[i as int]);
                assert(ps.skip(1) =~= p@.skip(i + 1));
            }
            if j < s@.len() {
                assert(ss[0] == s@[j as int]);
                assert(ss.skip(1) =~= s@.skip(j + 1));
            }
        }
        let curved = j >= s.len() || (i < p.len() && p[i].0 <= s[j].0);
        let sloped = i >= p.len() || (j < s.len() && s[j].0 <= p[i].0);
        let here = Affected {
            column: if curved {
                p[i].0
            } else {
                s[j].0
            },
            curvature: if curved {
                p[i].1
            } else {
                zero()
            },
            slope: if sloped {
                s[j].1
            } else {
                zero()
            },
            curved,
            sloped,
        };
        out.push(here);
        if curved {
            i = i + 1;
        }
        if sloped {
            j = j + 1;
        }
        proof {
            let rest = affected(p@.skip(i as int), s@.skip(j as int));
            assert(affected(ps, ss) == seq![here] + rest);
            assert(out@ + rest =~= before + (seq![here] + rest));
            if curved && i < p@.len() {
                assert(p@[i - 1].0 < p@[i as int].0);
            }
            if sloped && j < s@.len() {
                assert(s@[j - 1].0 < s@[j as int].0);
            }
            assert forall|a: int| 0 <= a < out@.len() implies (exists|b: int|
                0 <= b < p@.len() && (#[trigger] p@[b]).0 == (#[trigger] out@[a]).column) || (
            exists|b: int| 0 <= b < s@.len() && (#[trigger] s@[b]).0 == out@[a].column) by {
                if a == before.len() {
                    if curved {
                        assert(p@[i - 1].0 == here.column);
                    } else {
                        assert(s@[j - 1].0 == here.column);
                    }
                } else {
                    assert(out@[a] == before[a]);
                }
            }
        }
    }
    assert(out@ + Seq::<Affected>::empty() =~= out@);
    out
}

/// A variable without slope comes from the first support.
pub proof fn unsloped_is_original(p: Seq<(usize, Real)>, s: Seq<(usize, Real)>, k: int)
    requires
        0 <= k < affected(p, s).len(),
        !affected(p, s)[k].sloped,
    ensures
        p.contains((affected(p, s)[k].column, affected(p, s)[k].curvature)),
    decreases p.len() + s.len(),
{
    if p.len() > 0 || s.len() > 0 {
        let curved = s.len() == 0 || p.len() > 0 && p[0].0 <= s[0].0;
        let sloped = p.len() == 0 || s.len() > 0 && s[0].0 <= p[0].0;
        let here = (affected(p, s)[k].column, affected(p, s)[k].curvature);
        if k == 0 {
            assert(p[0] == here);
        } else {
            let (q, r) = (
                if curved {
                    p.skip(1)
                } else {
                    p
                },
                if sloped {
                    s.skip(1)
                } else {
                    s
                },
            );
            assert(affected(p, s)[k] == affected(q, r)[k - 1]);
            unsloped_is_original(q, r, k - 1);
            let b = choose|b: int| 0 <= b < q.len() && q[b] == here;
            if curved {
                assert(p[b + 1] == here);
            } else {
                assert(p[b] == here);
            }
        }
    }
}

/// Whether the Hessian entry of two affected variables can change.
pub open spec fn included(list: Seq<Affected>, diagonal: Real, j: int, l: int) -> bool {
    let by_slope = !list[j].curvature.zero() || (!diagonal.zero() && list[j].sloped);
    let by_curvature = list[j].sloped;
    if by_slope && by_curvature {
        true
    } else if by_slope {
        list[l].sloped
    } else if by_curvature {
        list[l].curved
    } else {
        false
    }
}

/// The pairs of one affected variable with itself and later ones.
pub open spec fn row_pairs(list: Seq<Affected>, diagonal: Real, j: nat, l: nat) -> Seq<
    (usize, usize),
>
    decreases l,
{
    if l <= j {
        Seq::empty()
    } else {
        let before = row_pairs(list, diagonal, j, (l - 1) as nat);
        if included(list, diagonal, j as int, l - 1) {
            before.push((j as usize, (l - 1) as usize))
        } else {
            before
        }
    }
}

/// The pairs of the first affected variables.
pub open spec fn all_pairs(list: Seq<Affected>, diagonal: Real, j: nat) -> Seq<(usize, usize)>
    decreases j,
{
    if j == 0 {
        Seq::empty()
    } else {
        all_pairs(list, diagonal, (j - 1) as nat) + row_pairs(
            list,
            diagonal,
            (j - 1) as nat,
            list.len(),
        )
    }
}

proof fn row_pairs_grow(list: Seq<Affected>, diagonal: Real, j: nat, l: nat, m: nat)
    requires
        l <= m,
    ensures
        row_pairs(list, diagonal, j, l).is_prefix_of(row_pairs(list, diagonal, j, m)),
    decreases m,
{
    if l < m {
        row_pairs_grow(list, diagonal, j, l, (m - 1) as nat);
        let (a, b, c) = (
            row_pairs(list, diagonal, j, l),
            row_pairs(list, diagonal, j, (m - 1) as nat),
            row_pairs(list, diagonal, j, m),
        );
        assert(b.is_prefix_of(c));
        assert(a =~= c.subrange(0, a.len() as int));
    }
}

proof fn all_pairs_grow(list: Seq<Affected>, diagonal: Real, j: nat, m: nat)
    requires
        j <= m,
    ensures
        all_pairs(list, diagonal, j).is_prefix_of(all_pairs(list, diagonal, m)),
    decreases m,
{
    if j < m {
        all_pairs_grow(list, diagonal, j, (m - 1) as nat);
        let (a, b, c) = (
            all_pairs(list, diagonal, j),
            all_pairs(list, diagonal, (m - 1) as nat),
            all_pairs(list, diagonal, m),
        );
        assert(b.is_prefix_of(c));
        assert(a =~= c.subrange(0, a.len() as int));
    }
}

/// The pairs of the first variables, and the first pairs of the next one, come
/// first among all pairs.
pub proof fn pairs_are_a_prefix(list: Seq<Affected>, diagonal: Real, j: nat, l: nat)
    requires
        j < list.len(),
        l <= list.len(),
    ensures
        (all_pairs(list, diagonal, j) + row_pairs(list, diagonal, j, l)).is_prefix_of(
            all_pairs(list, diagonal, list.len()),
        ),
{
    row_pairs_grow(list, diagonal, j, l, list.len());
    all_pairs_grow(list, diagonal, j + 1, list.len());
    let part = all_pairs(list, diagonal, j) + row_pairs(list, diagonal, j, l);
    let row = all_pairs(list, diagonal, j + 1);
    let all = all_pairs(list, diagonal, list.len());
    assert(part =~= row.subrange(0, part.len() as int));
    assert(part =~= all.subrange(0, part.len() as int));
}

/// Fill and updates so far.
pub ghost struct Count {
    pub added: nat,
    pub removed: nat,
    pub list: Seq<(usize, usize, Real)>,
}

/// A substitution, worked out.
pub struct Plan {
    pub gradient: Gradient,
    pub constant: Real,
    pub linear: Entries,
    pub quadratic: Vec<(usize, usize, Real)>,
}

/// A Hessian after updates in turn.
pub open spec fn updated(p: Map<(int, int), Real>, list: Seq<(usize, usize, Real)>) -> Map<
    (int, int),
    Real,
>
    decreases list.len(),
{
    if list.len() == 0 {
        p
    } else {
        let (i, j, v) = list.last();
        symmetric::coefficient_set(updated(p, list.drop_last()), i as int, j as int, v)
    }
}

/// A vector after updates in turn.
pub open spec fn assigned(c: Seq<Real>, list: Seq<(usize, Real)>) -> Seq<Real>
    decreases list.len(),
{
    if list.len() == 0 {
        c
    } else {
        assigned(c, list.drop_last()).update(list.last().0 as int, list.last().1)
    }
}

pub open spec fn all_finite(list: Seq<(usize, Real)>) -> bool {
    forall|a: int| 0 <= a < list.len() ==> (#[trigger] list[a]).1.finite()
}

impl Objective {
    pub open spec fn wf(&self) -> bool {
        &&& self.p.wf()
        &&& self.c@.len() == self.p.size()
    }

    /// The derivative by one variable.
    pub fn gradient(&self, column: usize) -> (g: Gradient)
        requires
            self.wf(),
            column < self.c@.len(),
        ensures
            g.constant == self.c@[column as int],
            linked::lists_line(g.terms@, self.p@, false, column as int),
    {
        Gradient { constant: self.c[column], terms: self.p.row(column).to_vec() }
    }

    /// A Hessian coefficient.
    pub fn coefficient(&self, i: usize, j: usize) -> (v: Real)
        requires
            self.wf(),
            i < self.c@.len(),
            j < self.c@.len(),
        ensures
            v == symmetric::value_at(self.p@, i as int, j as int),
    {
        let v = self.p.get(i, j);
        proof {
            self.p.stored_positions();
        }
        if v.is_zero() {
            zero()
        } else {
            v
        }
    }

    /// Apply a substitution.
    pub fn commit(&mut self, k: usize, plan: &Plan)
        requires
            old(self).wf(),
            k < old(self).c@.len(),
            old(self).p@.dom().len() + 2 * plan.quadratic@.len() + 2 < 2 * NONE,
            old(self).p@.dom().len() + 2 * plan.quadratic@.len() + 2 <= usize::MAX,
            old(self).p.edits() + plan.quadratic@.len() + 1 < usize::MAX,
            forall|a: int|
                0 <= a < plan.linear@.len() ==> (#[trigger] plan.linear@[a]).0 < old(self).c@.len(),
            forall|a: int|
                0 <= a < plan.quadratic@.len() ==> {
                    &&& (#[trigger] plan.quadratic@[a]).0 < old(self).c@.len()
                    &&& plan.quadratic@[a].1 < old(self).c@.len()
                    &&& plan.quadratic@[a].2.finite()
                },
        ensures
            final(self).wf(),
            final(self).constant == plan.constant,
            final(self).c@ == assigned(old(self).c@.update(k as int, zero()), plan.linear@),
            final(self).p@ == updated(
                symmetric::variable_removed(old(self).p@, k as int),
                plan.quadratic@,
            ),
            final(self).p.size() == old(self).p.size(),
    {
        let ghost start = *self;
        proof {
            self.p.stored_positions();
        }
        self.p.remove_variable(k);
        let ghost base = self.p@;
        proof {
            vstd::set_lib::lemma_len_subset(base.dom(), start.p@.dom());
        }
        self.c.set(k, zero());
        let ghost cleared = self.c@;
        let mut a: usize = 0;
        assert(plan.linear@.take(0) =~= Seq::<(usize, Real)>::empty());
        while a < plan.linear.len()
            invariant
                a <= plan.linear@.len(),
                self.p.wf(),
                self.p@ == base,
                self.p.size() == start.p.size(),
                self.p.edits() == start.p.edits() + 1,
                self.c@.len() == start.c@.len(),
                forall|a: int|
                    0 <= a < plan.linear@.len() ==> (#[trigger] plan.linear@[a]).0
                        < start.c@.len(),
                self.c@ == assigned(cleared, plan.linear@.take(a as int)),
            decreases plan.linear@.len() - a,
        {
            let (j, v): (usize, Real) = plan.linear[a];
            assert(plan.linear@[a as int].0 < start.c@.len());
            self.c.set(j, v);
            a = a + 1;
            assert(plan.linear@.take(a as int).drop_last() =~= plan.linear@.take(a - 1));
        }
        assert(plan.linear@.take(a as int) =~= plan.linear@);
        let ghost done = self.c@;
        let mut b: usize = 0;
        assert(plan.quadratic@.take(0) =~= Seq::<(usize, usize, Real)>::empty());
        while b < plan.quadratic.len()
            invariant
                b <= plan.quadratic@.len(),
                self.p.wf(),
                self.p.size() == start.p.size(),
                start.c@.len() == start.p.size(),
                self.c@ == done,
                self.p@ == updated(base, plan.quadratic@.take(b as int)),
                self.p@.dom().len() <= start.p@.dom().len() + 2 * b,
                self.p.edits() <= start.p.edits() + 1 + b,
                start.p@.dom().len() + 2 * plan.quadratic@.len() + 2 < 2 * NONE,
                start.p@.dom().len() + 2 * plan.quadratic@.len() + 2 <= usize::MAX,
                start.p.edits() + plan.quadratic@.len() + 1 < usize::MAX,
                forall|a: int|
                    0 <= a < plan.quadratic@.len() ==> {
                        &&& (#[trigger] plan.quadratic@[a]).0 < start.c@.len()
                        &&& plan.quadratic@[a].1 < start.c@.len()
                        &&& plan.quadratic@[a].2.finite()
                    },
            decreases plan.quadratic@.len() - b,
        {
            let (i, j, v): (usize, usize, Real) = plan.quadratic[b];
            assert(plan.quadratic@[b as int].0 < start.c@.len());
            let ghost before = self.p@;
            proof {
                self.p.stored_positions();
            }
            self.p.set(i, j, v);
            b = b + 1;
            proof {
                assert(plan.quadratic@.take(b as int).drop_last() =~= plan.quadratic@.take(b - 1));
                let grown = before.dom().insert((i as int, j as int)).insert((j as int, i as int));
                assert(self.p@.dom().subset_of(grown));
                vstd::set_lib::lemma_len_subset(self.p@.dom(), grown);
            }
        }
        assert(plan.quadratic@.take(b as int) =~= plan.quadratic@);
        self.constant = plan.constant;
    }
}

} // verus!
