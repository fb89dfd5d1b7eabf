//! A two-dimensional second-order cone is two linear inequalities.

use crate::bounds::{Bounds, RowDomain};
use crate::cones;
use crate::linked::{self, Entries, NONE};
use crate::merge;
use crate::model::{Model, Rule};
use crate::number::{neg_infinity, zero, Real};
use vstd::prelude::*;

verus! {

/// The operation accepts any two values.
pub open spec fn accepts<F: Fn(Real, Real) -> Real>(f: &F) -> bool {
    forall|a: Real, b: Real| #[trigger] call_requires(*f, (a, b))
}

pub open spec fn signed(v: Real, negate: bool) -> Real {
    if negate {
        v.opposite()
    } else {
        v
    }
}

/// The sum of two values, the second one possibly negated. A zero second value
/// leaves the first one as it is.
pub open spec fn adds<F: Fn(Real, Real) -> Real>(
    plus: &F,
    a: Real,
    b: Real,
    negate: bool,
    v: Real,
) -> bool {
    if b.zero() {
        v == a
    } else {
        call_ensures(*plus, (a, signed(b, negate)), v)
    }
}

/// A row holds the entrywise sum, or difference, of two rows.
pub open spec fn sums<F: Fn(Real, Real) -> Real>(
    out: Seq<(usize, Real)>,
    left: Seq<(usize, Real)>,
    right: Seq<(usize, Real)>,
    negate: bool,
    plus: F,
) -> bool {
    &&& merge::increasing(out)
    &&& forall|j: usize| #[trigger] sum_at(out, left, right, negate, plus, j)
}

pub open spec fn sum_at<F: Fn(Real, Real) -> Real>(
    out: Seq<(usize, Real)>,
    left: Seq<(usize, Real)>,
    right: Seq<(usize, Real)>,
    negate: bool,
    plus: F,
    j: usize,
) -> bool {
    if merge::entry(left, j) is None && merge::entry(right, j) is None {
        merge::entry(out, j) is None
    } else {
        exists|v: Real|
            adds(
                &plus,
                merge::value(merge::entry(left, j)),
                merge::value(merge::entry(right, j)),
                negate,
                v,
            ) && merge::entry(out, j) == #[trigger] merge::stored(v)
    }
}

/// Every entry is finite.
pub open spec fn all_finite(entries: Seq<(usize, Real)>) -> bool {
    forall|a: int| 0 <= a < entries.len() ==> (#[trigger] entries[a]).1.finite()
}

fn finite_entries(entries: &Entries) -> (b: bool)
    ensures
        b == all_finite(entries@),
{
    let mut at: usize = 0;
    while at < entries.len()
        invariant
            at <= entries@.len(),
            forall|a: int| 0 <= a < at ==> (#[trigger] entries@[a]).1.finite(),
        decreases entries@.len() - at,
    {
        if !entries[at].1.is_finite() {
            return false;
        }
        at = at + 1;
    }
    true
}

/// Add two rows, the second one possibly negated.
pub fn add_rows<F: Fn(Real, Real) -> Real>(
    left: &Entries,
    right: &Entries,
    negate: bool,
    plus: &F,
) -> (out: Entries)
    requires
        merge::increasing(left@),
        merge::increasing(right@),
        accepts(plus),
    ensures
        sums(out@, left@, right@, negate, *plus),
        out@.len() <= left@.len() + right@.len(),
        forall|a: int|
            0 <= a < out@.len() ==> !(#[trigger] out@[a]).1.zero() && (merge::entry(
                left@,
                out@[a].0,
            ) is Some || merge::entry(right@, out@[a].0) is Some),
{
    let f = |a: Real, b: Real| -> (r: Option<Real>)
        requires
            accepts(plus),
        ensures
            r matches Some(v) && adds(plus, a, b, negate, v),
        {
            if b.is_zero() {
                Some(a)
            } else if negate {
                Some(plus(a, b.neg()))
            } else {
                Some(plus(a, b))
            }
        };
    match merge::combine(left, right, &f) {
        Some(out) => {
            proof {
                assert forall|j: usize| #[trigger] sum_at(
                    out@,
                    left@,
                    right@,
                    negate,
                    *plus,
                    j,
                ) by {
                    assert(merge::combined_at(out@, left@, right@, f, j));
                }
            }
            out
        },
        None => {
            proof {
                let j = choose|j: usize|
                    !(merge::entry(left@, j) is None && merge::entry(right@, j) is None)
                        && #[trigger] call_ensures(
                        f,
                        (
                            merge::value(merge::entry(left@, j)),
                            merge::value(merge::entry(right@, j)),
                        ),
                        None,
                    );
                assert(false);
            }
            Vec::new()
        },
    }
}

/// The halves of a pair of coordinates.
pub open spec fn halves<F: Fn(Real, Real) -> Real>(
    sum: Seq<(usize, Real)>,
    difference: Seq<(usize, Real)>,
    upper: Real,
    lower: Real,
    model: Model,
    head: usize,
    tail: usize,
    plus: F,
) -> bool {
    let h0 = cones::rhs_of(model.rows@[head as int]);
    let h1 = cones::rhs_of(model.rows@[tail as int]);
    &&& call_ensures(plus, (h0, h1), upper)
    &&& call_ensures(plus, (h0, h1.opposite()), lower)
    &&& forall|r0: Seq<(usize, Real)>, r1: Seq<(usize, Real)>|
        #![trigger linked::lists_line(r0, model.a@, false, head as int), linked::lists_line(
            r1,
            model.a@,
            false,
            tail as int,
        )]
        linked::lists_line(r0, model.a@, false, head as int) && linked::lists_line(
            r1,
            model.a@,
            false,
            tail as int,
        ) ==> sums(sum, r0, r1, false, plus) && sums(difference, r0, r1, true, plus)
}

/// Linear rows for the two halves took the place of a pair.
pub open spec fn paired(
    new: Model,
    old: Model,
    head: usize,
    tail: usize,
    sum: Seq<(usize, Real)>,
    difference: Seq<(usize, Real)>,
    upper: Real,
    lower: Real,
) -> bool {
    let n = old.tape@.len() as int;
    &&& linked::lists_line(sum, new.a@, false, head as int)
    &&& linked::lists_line(difference, new.a@, false, tail as int)
    &&& forall|i: int, j: int|
        i != head && i != tail ==> (#[trigger] new.a@.contains_key((i, j))
            <==> old.a@.contains_key((i, j))) && (old.a@.contains_key((i, j)) ==> new.a@[(i, j)]
            == old.a@[(i, j)])
    &&& new.rows@ == old.rows@.update(
        head as int,
        RowDomain::Linear(Bounds { lower: neg_infinity(), upper }),
    ).update(tail as int, RowDomain::Linear(Bounds { lower: neg_infinity(), upper: lower }))
    &&& new.bounds@ == old.bounds@
    &&& new.alive@ == old.alive@
    &&& new.cones@ == old.cones@
    &&& new.cone_rows@ == old.cone_rows@
    &&& new.changed_cones@ == old.changed_cones@
    &&& new.revision == old.revision + 2
    &&& new.tape@.len() == n + 3
    &&& new.tape@.take(n) == old.tape@
    &&& new.tape@[n] == (Rule::SocToLinear { head, tail })
    &&& cones::is_slack(new.tape@[n + 1], head, old)
    &&& cones::is_slack(new.tape@[n + 2], tail, old)
}

proof fn listed_is_increasing(
    entries: Seq<(usize, Real)>,
    a: Map<(int, int), Real>,
    row: int,
    j: usize,
)
    requires
        linked::lists_line(entries, a, false, row),
    ensures
        merge::increasing(entries),
        merge::entry(entries, j) is Some ==> a.contains_key((row, j as int)),
{
    assert forall|x: int, y: int| 0 <= x < y < entries.len() implies (#[trigger] entries[x]).0 < (
    #[trigger] entries[y]).0 by {}
    if merge::entry(entries, j) is Some {
        let x = choose|x: int| 0 <= x < entries.len() && (#[trigger] entries[x]).0 == j;
        assert(a.contains_key(linked::place(false, row, entries[x].0 as int)));
    }
}

impl Model {
    /// Replace the last two coordinates of a second-order cone by two linear
    /// rows, unless a result overflows.
    pub fn split_pair<F: Fn(Real, Real) -> Real>(&mut self, head: usize, tail: usize, plus: &F) -> (
    done: bool)
        requires
            old(self).wf(),
            head < old(self).rows@.len(),
            tail < old(self).rows@.len(),
            head != tail,
            old(self).rows@[head as int] is Cone,
            old(self).rows@[tail as int] is Cone,
            accepts(plus),
            old(self).revision + 2 <= usize::MAX,
            old(self).a@.dom().len() + 2 * linked::line_items(
                old(self).a@,
                false,
                head as int,
            ).len() + 2 * linked::line_items(old(self).a@, false, tail as int).len() <= NONE,
        ensures
            final(self).wf(),
            exists|
                sum: Seq<(usize, Real)>,
                difference: Seq<(usize, Real)>,
                upper: Real,
                lower: Real,
            |
                {
                    &&& #[trigger] halves(
                        sum,
                        difference,
                        upper,
                        lower,
                        *old(self),
                        head,
                        tail,
                        *plus,
                    )
                    &&& done == (all_finite(sum) && all_finite(difference) && upper.finite()
                        && lower.finite())
                    &&& if done {
                        paired(
                            *final(self),
                            *old(self),
                            head,
                            tail,
                            sum,
                            difference,
                            upper,
                            lower,
                        )
                    } else {
                        *final(self) == *old(self)
                    }
                },
    {
        let ghost start = *self;
        let h0 = self.cone_rhs(head);
        let h1 = self.cone_rhs(tail);
        let r0 = self.a.row(head).to_vec();
        let r1 = self.a.row(tail).to_vec();
        proof {
            listed_is_increasing(r0@, self.a@, head as int, 0);
            listed_is_increasing(r1@, self.a@, tail as int, 0);
            linked::listed_length(r0@, self.a@, false, head as int);
            linked::listed_length(r1@, self.a@, false, tail as int);
        }
        let sum = add_rows(&r0, &r1, false, plus);
        let difference = add_rows(&r0, &r1, true, plus);
        let upper = plus(h0, h1);
        let lower = plus(h0, h1.neg());
        proof {
            assert forall|x: Seq<(usize, Real)>, y: Seq<(usize, Real)>|
                #![trigger linked::lists_line(x, start.a@, false, head as int), linked::lists_line(
                    y,
                    start.a@,
                    false,
                    tail as int,
                )]
                linked::lists_line(x, start.a@, false, head as int) && linked::lists_line(
                    y,
                    start.a@,
                    false,
                    tail as int,
                ) implies sums(sum@, x, y, false, *plus) && sums(
                difference@,
                x,
                y,
                true,
                *plus,
            ) by {
                linked::listing_is_unique(x, r0@, start.a@, false, head as int);
                linked::listing_is_unique(y, r1@, start.a@, false, tail as int);
            }
            assert(halves(sum@, difference@, upper, lower, start, head, tail, *plus));
        }
        if !finite_entries(&sum) || !finite_entries(&difference) || !upper.is_finite()
            || !lower.is_finite() {
            return false;
        }
        proof {
            start.a.stored_positions();
            assert forall|a: int| 0 <= a < sum@.len() implies (#[trigger] sum@[a]).0
                < start.a.column_count() by {
                listed_is_increasing(r0@, start.a@, head as int, sum@[a].0);
                listed_is_increasing(r1@, start.a@, tail as int, sum@[a].0);
            }
            assert forall|a: int| 0 <= a < difference@.len() implies (#[trigger] difference@[a]).0
                < start.a.column_count() by {
                listed_is_increasing(r0@, start.a@, head as int, difference@[a].0);
                listed_is_increasing(r1@, start.a@, tail as int, difference@[a].0);
            }
        }
        self.replace_row(
            head,
            &sum,
            RowDomain::Linear(Bounds { lower: neg_infinity(), upper }),
        );
        let ghost mid = *self;
        self.replace_row(
            tail,
            &difference,
            RowDomain::Linear(Bounds { lower: neg_infinity(), upper: lower }),
        );
        self.tape.push(Rule::SocToLinear { head, tail });
        self.tape.push(Rule::ConeSlack { row: head, rhs: h0, entries: r0 });
        self.tape.push(Rule::ConeSlack { row: tail, rhs: h1, entries: r1 });
        proof {
            let n = start.tape@.len() as int;
            assert(self.tape@.take(n) =~= start.tape@);
            assert(linked::lists_line(sum@, self.a@, false, head as int)) by {
                assert(linked::lists_line(sum@, mid.a@, false, head as int));
                same_listing(sum@, self.a@, mid.a@, head as int, tail as int);
            }
        }
        true
    }
}

/// A row lists the same entries when another row changes.
proof fn same_listing(
    entries: Seq<(usize, Real)>,
    new: Map<(int, int), Real>,
    old: Map<(int, int), Real>,
    row: int,
    other: int,
)
    requires
        linked::lists_line(entries, old, false, row),
        linked::same_outside_row(new, old, other),
        row != other,
    ensures
        linked::lists_line(entries, new, false, row),
{
    assert forall|k: int| new.contains_key(#[trigger] linked::place(false, row, k))
        <==> old.contains_key(linked::place(false, row, k)) by {
        assert(linked::place(false, row, k) == (row, k));
    }
    assert forall|k: int| old.contains_key(#[trigger] linked::place(false, row, k)) implies new[
        linked::place(false, row, k)] == old[linked::place(false, row, k)] by {
        assert(linked::place(false, row, k) == (row, k));
    }
}

} // verus!
