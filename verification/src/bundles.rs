//! The pass over parallel rows.

use crate::arithmetic::Arithmetic;
use crate::bounds::RowDomain;
use crate::grouping;
use crate::grouping::{candidate_groups, Key};
use crate::linked::Entries;
use crate::listing;
use crate::model::Model;
use crate::number::Real;
use crate::parallel;
use crate::parallel::Merger;
use crate::passes;
use crate::sparsify;
use crate::twins;
use vstd::prelude::*;

verus! {

/// The place of a value in the total order of bit patterns: negative values from
/// the largest magnitude down, then the others from zero up.
pub open spec fn place_of(v: Real) -> int {
    if v.bits >= 0x8000_0000_0000_0000 {
        -1 - (v.bits - 0x8000_0000_0000_0000)
    } else {
        v.bits as int
    }
}

fn placed_before(a: Real, b: Real) -> (r: bool)
    ensures
        r == (place_of(a) < place_of(b)),
{
    let (x, y): (u64, u64) = (a.to_bits(), b.to_bits());
    let (p, q): (bool, bool) = (x >= 0x8000_0000_0000_0000, y >= 0x8000_0000_0000_0000);
    if p != q {
        p
    } else if p {
        x > y
    } else {
        x < y
    }
}

/// The largest magnitude of a line with the sign of its first entry.
pub open spec fn line_scale(entries: Seq<(usize, Real)>) -> Real {
    let m = sparsify::largest(entries, crate::number::zero(), 0);
    if entries[0].1.bits >= 0x8000_0000_0000_0000 {
        m.opposite()
    } else {
        m
    }
}

fn scale_of(entries: &Entries) -> (scale: Real)
    requires
        entries@.len() > 0,
    ensures
        scale == line_scale(entries@),
{
    let m = sparsify::largest_of(entries);
    if entries[0].1.to_bits() >= 0x8000_0000_0000_0000 {
        m.neg()
    } else {
        m
    }
}

/// The rows compared with one of them: what is left over is compared again.
pub ghost struct Sweep {
    pub model: Model,
    pub base: usize,
    pub rest: Seq<usize>,
}

impl<
    P: Fn(Real, Real) -> Real,
    T: Fn(Real, Real) -> Real,
    D: Fn(Real, Real) -> Real,
    H: Fn(Real, Real) -> Real,
> Arithmetic<P, T, D, H> {
    /// The first difference of two normalised lines from place `k` on: negative
    /// where the left one comes first.
    pub open spec fn line_order(
        &self,
        left: Seq<(usize, Real)>,
        a: Real,
        right: Seq<(usize, Real)>,
        b: Real,
        k: int,
    ) -> int
        decreases left.len() - k,
    {
        if k >= left.len() || k >= right.len() {
            0
        } else {
            let x = place_of(self.quotient(left[k].1, a));
            let y = place_of(self.quotient(right[k].1, b));
            if left[k].0 != right[k].0 {
                left[k].0 - right[k].0
            } else if x != y {
                x - y
            } else {
                self.line_order(left, a, right, b, k + 1)
            }
        }
    }

    /// The canonical order of rows: by length, by normalised entries, by number.
    pub open spec fn row_precedes(&self, model: Model, i: usize, j: usize) -> bool {
        let left = listing::line(model.a@, false, i as int);
        let right = listing::line(model.a@, false, j as int);
        let order = self.line_order(left, line_scale(left), right, line_scale(right), 0);
        if left.len() != right.len() {
            left.len() < right.len()
        } else if order != 0 {
            order < 0
        } else {
            i < j
        }
    }

    fn precedes(&self, model: &Model, i: usize, j: usize) -> (r: bool)
        requires
            self.wf(),
            model.wf(),
            i < model.rows@.len(),
            j < model.rows@.len(),
        ensures
            r == self.row_precedes(*model, i, j),
    {
        let left = model.row_entries(i);
        let right = model.row_entries(j);
        if left.len() != right.len() {
            return left.len() < right.len();
        }
        if left.len() == 0 {
            return i < j;
        }
        let (a, b): (Real, Real) = (scale_of(&left), scale_of(&right));
        let mut k: usize = 0;
        while k < left.len()
            invariant
                k <= left@.len(),
                left@.len() == right@.len(),
                self.wf(),
                left@ == listing::line(model.a@, false, i as int),
                right@ == listing::line(model.a@, false, j as int),
                a == line_scale(left@),
                b == line_scale(right@),
                self.line_order(left@, a, right@, b, 0) == self.line_order(
                    left@,
                    a,
                    right@,
                    b,
                    k as int,
                ),
            decreases left@.len() - k,
        {
            if left[k].0 != right[k].0 {
                return left[k].0 < right[k].0;
            }
            let x = self.quotient_of(left[k].1, a);
            let y = self.quotient_of(right[k].1, b);
            if placed_before(x, y) {
                return true;
            }
            if placed_before(y, x) {
                return false;
            }
            k = k + 1;
        }
        i < j
    }

    /// A row takes its place among rows in canonical order.
    pub open spec fn row_placed(&self, model: Model, list: Seq<usize>, i: usize) -> Seq<usize>
        decreases list.len(),
    {
        if list.len() == 0 || !self.row_precedes(model, i, list.last()) {
            list.push(i)
        } else {
            self.row_placed(model, list.drop_last(), i).push(list.last())
        }
    }

    /// Rows in canonical order, from place `k` on.
    pub open spec fn rows_placed(
        &self,
        model: Model,
        list: Seq<usize>,
        rows: Seq<usize>,
        k: int,
    ) -> Seq<usize>
        decreases rows.len() - k,
    {
        if k >= rows.len() {
            list
        } else {
            self.rows_placed(model, self.row_placed(model, list, rows[k]), rows, k + 1)
        }
    }

    proof fn row_placed_at(&self, model: Model, list: Seq<usize>, i: usize, p: int)
        requires
            0 <= p <= list.len(),
            p > 0 ==> !self.row_precedes(model, i, list[p - 1]),
            forall|q: int| p <= q < list.len() ==> self.row_precedes(model, i, #[trigger] list[q]),
        ensures
            self.row_placed(model, list, i) == list.insert(p, i),
        decreases list.len(),
    {
        if p == list.len() {
            assert(list.insert(p, i) =~= list.push(i));
        } else {
            assert(self.row_precedes(model, i, list[list.len() - 1]));
            assert forall|q: int| p <= q < list.drop_last().len() implies self.row_precedes(
                model,
                i,
                #[trigger] list.drop_last()[q],
            ) by {
                assert(self.row_precedes(model, i, list[q]));
            }
            self.row_placed_at(model, list.drop_last(), i, p);
            assert(list.drop_last().insert(p, i).push(list.last()) =~= list.insert(p, i));
        }
    }

    fn place_rows(&self, model: &Model, rows: &Vec<usize>) -> (list: Vec<usize>)
        requires
            self.wf(),
            model.wf(),
            forall|k: int| 0 <= k < rows@.len() ==> (#[trigger] rows@[k]) < model.rows@.len(),
        ensures
            list@ == self.rows_placed(*model, Seq::empty(), rows@, 0),
            list@.len() == rows@.len(),
            list@.to_multiset() == rows@.to_multiset(),
            forall|k: int| 0 <= k < list@.len() ==> (#[trigger] list@[k]) < model.rows@.len(),
    {
        broadcast use vstd::seq_lib::group_to_multiset_ensures;

        let mut list: Vec<usize> = Vec::new();
        let mut k: usize = 0;
        assert(list@ =~= Seq::<usize>::empty());
        assert(rows@.take(0) =~= Seq::<usize>::empty());
        while k < rows.len()
            invariant
                k <= rows@.len(),
                list@.len() == k,
                self.wf(),
                model.wf(),
                forall|k: int| 0 <= k < rows@.len() ==> (#[trigger] rows@[k]) < model.rows@.len(),
                forall|k: int| 0 <= k < list@.len() ==> (#[trigger] list@[k]) < model.rows@.len(),
                list@.to_multiset() == rows@.take(k as int).to_multiset(),
                self.rows_placed(*model, Seq::empty(), rows@, 0) == self.rows_placed(
                    *model,
                    list@,
                    rows@,
                    k as int,
                ),
            decreases rows@.len() - k,
        {
            let i: usize = rows[k];
            assert(rows@[k as int] < model.rows@.len());
            let mut p: usize = list.len();
            while p > 0 && self.precedes(model, i, list[p - 1])
                invariant
                    p <= list@.len(),
                    self.wf(),
                    model.wf(),
                    i < model.rows@.len(),
                    forall|k: int|
                        0 <= k < list@.len() ==> (#[trigger] list@[k]) < model.rows@.len(),
                    forall|q: int|
                        p <= q < list@.len() ==> self.row_precedes(*model, i, #[trigger] list@[q]),
                decreases p,
            {
                p = p - 1;
            }
            proof {
                self.row_placed_at(*model, list@, i, p as int);
            }
            let ghost before = list@;
            list.insert(p, i);
            k = k + 1;
            proof {
                before.insert_ensures(p as int, i);
                assert(rows@.take(k as int) =~= rows@.take(k - 1).push(i));
                vstd::seq_lib::to_multiset_insert(before, p as int, i);
                vstd::seq_lib::to_multiset_build(rows@.take(k - 1), i);
                assert forall|t: int| 0 <= t < list@.len() implies (#[trigger] list@[t])
                    < model.rows@.len() by {
                    if t < p {
                        assert(list@[t] == before[t]);
                    } else if t > p {
                        assert(list@[t] == before[t - 1]);
                    }
                }
            }
        }
        assert(rows@.take(k as int) =~= rows@);
        list
    }

    /// The key of a linear row of two entries or more.
    pub open spec fn row_key<F: Fn(Real) -> u32>(&self, model: Model, i: int, f: F) -> Option<Key> {
        let entries = listing::line(model.a@, false, i);
        if model.rows@[i] is Linear && entries.len() > 1 {
            Some((twins::print_number(self.print_of(entries, f)) as u128, 0))
        } else {
            None
        }
    }

    /// Two rows merged, or stayed apart.
    pub open spec fn merge_turn(
        &self,
        before: Model,
        after: Model,
        base: usize,
        other: usize,
        tolerance: Real,
        feasibility: Real,
    ) -> bool {
        match self.row_merger(before, base, other, tolerance, feasibility) {
            Merger::Join(ratio, common) if before.revision + 3 <= usize::MAX => parallel::rows_joined(
                before,
                after,
                base,
                other,
                ratio,
                common,
            ),
            _ => after == before,
        }
    }

    pub open spec fn merges(&self, before: Model, base: usize, other: usize, tolerance: Real, feasibility: Real) -> bool {
        self.row_merger(before, base, other, tolerance, feasibility) is Join && before.revision + 3
            <= usize::MAX
    }

    /// One row is compared with the first of its group; those that do not merge
    /// are left over.
    pub open spec fn first_sweep(&self, tolerance: Real, feasibility: Real) -> spec_fn(
        Sweep,
        Sweep,
        usize,
    ) -> bool {
        |s: Sweep, t: Sweep, other: usize|
            {
                &&& self.merge_turn(s.model, t.model, s.base, other, tolerance, feasibility)
                &&& t.base == s.base
                &&& t.rest == if self.merges(s.model, s.base, other, tolerance, feasibility) {
                    s.rest
                } else {
                    s.rest.push(other)
                }
            }
    }

    /// One row is compared with the one before it; one that does not merge is the
    /// next to compare with.
    pub open spec fn second_sweep(&self, tolerance: Real, feasibility: Real) -> spec_fn(
        Sweep,
        Sweep,
        usize,
    ) -> bool {
        |s: Sweep, t: Sweep, other: usize|
            {
                &&& self.merge_turn(s.model, t.model, s.base, other, tolerance, feasibility)
                &&& t.rest == s.rest
                &&& t.base == if self.merges(s.model, s.base, other, tolerance, feasibility) {
                    s.base
                } else {
                    other
                }
            }
    }

    /// The rows of a group were compared with the first of them, and what was
    /// left over with its neighbours in canonical order. A conflict ends it.
    pub open spec fn group_swept(
        &self,
        before: Model,
        after: Model,
        group: Seq<usize>,
        first: Seq<Sweep>,
        met: Seq<usize>,
        second: Seq<Sweep>,
        again: Seq<usize>,
        tolerance: Real,
        feasibility: Real,
        whole: bool,
        count: nat,
    ) -> bool {
        let others = group.skip(1);
        let order = self.rows_placed(first.last().model, Seq::empty(), first.last().rest, 0);
        &&& passes::walk(self.first_sweep(tolerance, feasibility), first, met)
        &&& first[0] == (Sweep { model: before, base: group[0], rest: Seq::empty() })
        &&& met.len() <= others.len() && met == others.take(met.len() as int)
        &&& if met == others && first.last().rest.len() >= 2 {
            &&& passes::walk(self.second_sweep(tolerance, feasibility), second, again)
            &&& second[0] == (Sweep {
                model: first.last().model,
                base: order[0],
                rest: first.last().rest,
            })
            &&& again.len() <= order.skip(1).len() && again == order.skip(1).take(
                again.len() as int,
            )
            &&& whole ==> again == order.skip(1) && count == met.len() + again.len()
            &&& after == second.last().model
        } else {
            &&& whole ==> met == others && count == met.len()
            &&& after == first.last().model
        }
    }

    /// Compare the rows of one group. Returns how many pairs were compared, or
    /// two rows with multipliers that prove the model infeasible.
    fn sweep_group(
        &self,
        model: &mut Model,
        group: &Vec<usize>,
        tolerance: Real,
        feasibility: Real,
    ) -> (r: Result<u128, ((usize, Real), (usize, Real))>)
        requires
            self.wf(),
            old(model).wf(),
            group@.len() >= 2,
            forall|k: int| 0 <= k < group@.len() ==> (#[trigger] group@[k]) < old(model).rows@.len(),
            forall|a: int, b: int|
                0 <= a < b < group@.len() ==> (#[trigger] group@[a]) < (#[trigger] group@[b]),
        ensures
            final(model).wf(),
            final(model).rows@.len() == old(model).rows@.len(),
            final(model).bounds@.len() == old(model).bounds@.len(),
            self.group_turn(
                *old(model),
                *final(model),
                group@,
                tolerance,
                feasibility,
                r is Ok,
                count_of(r),
            ),
            r matches Err(((i, y), (j, z))) ==> self.conflict(
                *final(model),
                i,
                y,
                j,
                z,
                tolerance,
                feasibility,
            ),
    {
        let base: usize = group[0];
        let mut rest: Vec<usize> = Vec::new();
        let ghost turns = self.first_sweep(tolerance, feasibility);
        let ghost others = group@.skip(1);
        let ghost mut first: Seq<Sweep> = seq![
            Sweep { model: *model, base, rest: Seq::empty() },
        ];
        let ghost mut met: Seq<usize> = Seq::empty();
        let mut count: u128 = 0;
        let mut k: usize = 1;
        assert(met =~= others.take(0));
        assert(rest@ =~= Seq::<usize>::empty());
        assert(group.len() == group@.len());
        while k < group.len()
            invariant
                1 <= k <= group@.len() <= usize::MAX,
                self.wf(),
                model.wf(),
                model.rows@.len() == old(model).rows@.len(),
                model.bounds@.len() == old(model).bounds@.len(),
                group@.len() >= 2,
                base == group@[0],
                others == group@.skip(1),
                forall|k: int|
                    0 <= k < group@.len() ==> (#[trigger] group@[k]) < old(model).rows@.len(),
                forall|a: int, b: int|
                    0 <= a < b < group@.len() ==> (#[trigger] group@[a]) < (#[trigger] group@[b]),
                turns == self.first_sweep(tolerance, feasibility),
                passes::walk(turns, first, met),
                first[0] == (Sweep { model: *old(model), base: group@[0], rest: Seq::empty() }),
                first.last() == (Sweep { model: *model, base, rest: rest@ }),
                met == others.take(k - 1),
                count == k - 1,
                forall|t: int|
                    0 <= t < rest@.len() ==> (#[trigger] rest@[t]) < old(model).rows@.len(),
                forall|a: int, b: int|
                    0 <= a < b < rest@.len() ==> (#[trigger] rest@[a]) < (#[trigger] rest@[b]),
                forall|t: int| 0 <= t < rest@.len() ==> (#[trigger] rest@[t]) <= group@[k - 1],
                rest@.len() < k,
            decreases group@.len() - k,
        {
            let other: usize = group[k];
            assert(group@[0] < group@[k as int]);
            assert(group@[k - 1] < group@[k as int]);
            let ghost s = first.last();
            count = count + 1;
            let r = self.merge_parallel_rows(model, base, other, tolerance, feasibility);
            if let Ok(false) = r {
                rest.push(other);
            }
            proof {
                let t = Sweep { model: *model, base, rest: rest@ };
                if r is Ok {
                    assert(turns(s, t, other));
                    passes::walk_on(turns, first, met, t, other);
                    first = first.push(t);
                    met = met.push(other);
                    assert(met =~= others.take(k as int));
                }
            }
            match r {
                Ok(_) => {},
                Err((y, z)) => {
                    proof {
                        assert(others.take(k - 1).len() < others.len());
                        assert(self.group_swept(
                            *old(model),
                            *model,
                            group@,
                            first,
                            met,
                            Seq::empty(),
                            Seq::empty(),
                            tolerance,
                            feasibility,
                            false,
                            0,
                        ));
                        assert(self.group_turn(
                            *old(model),
                            *model,
                            group@,
                            tolerance,
                            feasibility,
                            false,
                            0,
                        ));
                    }
                    return Err(((base, y), (other, z)));
                },
            }
            k = k + 1;
        }
        assert(met =~= others);
        if rest.len() < 2 {
            assert(self.group_swept(
                *old(model),
                *model,
                group@,
                first,
                met,
                Seq::empty(),
                Seq::empty(),
                tolerance,
                feasibility,
                true,
                count as nat,
            ));
            assert(self.group_turn(
                *old(model),
                *model,
                group@,
                tolerance,
                feasibility,
                true,
                count as nat,
            ));
            return Ok(count);
        }
        let order = self.place_rows(model, &rest);
        proof {
            distinct_rows(order@, rest@);
        }
        let mut base: usize = order[0];
        let ghost turns = self.second_sweep(tolerance, feasibility);
        let ghost tail = order@.skip(1);
        let ghost mut second: Seq<Sweep> = seq![Sweep { model: *model, base, rest: rest@ }];
        let ghost mut again: Seq<usize> = Seq::empty();
        assert(again =~= tail.take(0));
        let mut at: usize = 0;
        let mut k: usize = 1;
        while k < order.len()
            invariant
                1 <= k <= order@.len(),
                at < k,
                base == order@[at as int],
                order@.len() == rest@.len(),
                rest@.len() >= 2,
                rest@.len() <= group@.len() <= usize::MAX,
                self.wf(),
                model.wf(),
                model.rows@.len() == old(model).rows@.len(),
                model.bounds@.len() == old(model).bounds@.len(),
                order@ == self.rows_placed(first.last().model, Seq::empty(), rest@, 0),
                order@.no_duplicates(),
                forall|k: int|
                    0 <= k < order@.len() ==> (#[trigger] order@[k]) < old(model).rows@.len(),
                tail == order@.skip(1),
                turns == self.second_sweep(tolerance, feasibility),
                passes::walk(self.first_sweep(tolerance, feasibility), first, met),
                first[0] == (Sweep { model: *old(model), base: group@[0], rest: Seq::empty() }),
                first.last().rest == rest@,
                met == group@.skip(1),
                passes::walk(turns, second, again),
                second[0] == (Sweep {
                    model: first.last().model,
                    base: order@[0],
                    rest: rest@,
                }),
                second.last() == (Sweep { model: *model, base, rest: rest@ }),
                again == tail.take(k - 1),
                count == met.len() + k - 1,
                group@.len() >= 2,
            decreases order@.len() - k,
        {
            let other: usize = order[k];
            assert(order@[at as int] != order@[k as int]);
            assert(order@[at as int] < old(model).rows@.len());
            assert(order@[k as int] < old(model).rows@.len());
            let ghost s = second.last();
            count = count + 1;
            let r = self.merge_parallel_rows(model, base, other, tolerance, feasibility);
            let held: usize = base;
            if let Ok(false) = r {
                base = other;
                at = k;
            }
            proof {
                let t = Sweep { model: *model, base, rest: rest@ };
                if r is Ok {
                    assert(turns(s, t, other));
                    passes::walk_on(turns, second, again, t, other);
                    second = second.push(t);
                    again = again.push(other);
                    assert(again =~= tail.take(k as int));
                }
            }
            match r {
                Ok(_) => {},
                Err((y, z)) => {
                    assert(met =~= group@.skip(1).take(met.len() as int));
                    assert(self.group_swept(
                        *old(model),
                        *model,
                        group@,
                        first,
                        met,
                        second,
                        again,
                        tolerance,
                        feasibility,
                        false,
                        0,
                    ));
                    assert(self.group_turn(
                        *old(model),
                        *model,
                        group@,
                        tolerance,
                        feasibility,
                        false,
                        0,
                    ));
                    return Err(((held, y), (other, z)));
                },
            }
            k = k + 1;
        }
        assert(again =~= tail);
        assert(met =~= group@.skip(1).take(met.len() as int));
        assert(again =~= tail.take(again.len() as int));
        assert(self.group_swept(
            *old(model),
            *model,
            group@,
            first,
            met,
            second,
            again,
            tolerance,
            feasibility,
            true,
            count as nat,
        ));
        assert(self.group_turn(
            *old(model),
            *model,
            group@,
            tolerance,
            feasibility,
            true,
            count as nat,
        ));
        Ok(count)
    }

    /// Two rows contradict each other, with these multipliers.
    pub open spec fn conflict(
        &self,
        model: Model,
        i: usize,
        y: Real,
        j: usize,
        z: Real,
        tolerance: Real,
        feasibility: Real,
    ) -> bool {
        self.row_merger(model, i, j, tolerance, feasibility) matches Merger::Conflict(
            multiplier,
            ratio,
        ) && y == multiplier && z == self.product(ratio.opposite(), multiplier)
    }
}

/// A model with the number of comparisons that led to it.
pub ghost struct Counted {
    pub model: Model,
    pub count: nat,
}

/// The number of comparisons, none where a conflict ended them.
pub open spec fn count_of(r: Result<u128, ((usize, Real), (usize, Real))>) -> nat {
    match r {
        Ok(n) => n as nat,
        Err(_) => 0,
    }
}

impl<
    P: Fn(Real, Real) -> Real,
    T: Fn(Real, Real) -> Real,
    D: Fn(Real, Real) -> Real,
    H: Fn(Real, Real) -> Real,
> Arithmetic<P, T, D, H> {
    /// The groups of rows whose fingerprints agree.
    #[verifier::opaque]
    pub open spec fn rows_grouped<F: Fn(Real) -> u32>(
        &self,
        model: Model,
        groups: Seq<Vec<usize>>,
        f: F,
    ) -> bool {
        grouping::are_groups(
            groups,
            Seq::new(model.rows@.len(), |i: int| self.row_key(model, i, f)),
        )
    }

    fn row_keys<F: Fn(Real) -> u32>(&self, model: &Model, f: &F) -> (keys: Vec<Option<Key>>)
        requires
            self.wf(),
            model.wf(),
            parallel::rounds(*f),
        ensures
            keys@ == Seq::new(model.rows@.len(), |i: int| self.row_key(*model, i, *f)),
    {
        let mut keys: Vec<Option<Key>> = Vec::new();
        let mut i: usize = 0;
        while i < model.rows.len()
            invariant
                i <= model.rows@.len(),
                self.wf(),
                model.wf(),
                parallel::rounds(*f),
                keys@.len() == i,
                forall|t: int| 0 <= t < i ==> #[trigger] keys@[t] == self.row_key(*model, t, *f),
            decreases model.rows@.len() - i,
        {
            let entries = model.row_entries(i);
            let linear = match model.rows[i] {
                RowDomain::Linear(_) => true,
                _ => false,
            };
            let key = if linear && entries.len() > 1 {
                Some((twins::number_of(self.fingerprint(&entries, f)), 0))
            } else {
                None
            };
            keys.push(key);
            i = i + 1;
        }
        assert(keys@ =~= Seq::new(model.rows@.len(), |i: int| self.row_key(*model, i, *f)));
        keys
    }

    /// One group of rows is compared.
    pub open spec fn group_turn(
        &self,
        before: Model,
        after: Model,
        group: Seq<usize>,
        tolerance: Real,
        feasibility: Real,
        whole: bool,
        count: nat,
    ) -> bool {
        exists|first: Seq<Sweep>, met: Seq<usize>, second: Seq<Sweep>, again: Seq<usize>| #[trigger]
            self.group_swept(
                before,
                after,
                group,
                first,
                met,
                second,
                again,
                tolerance,
                feasibility,
                whole,
                count,
            )
    }

    pub open spec fn group_turns(
        &self,
        groups: Seq<Vec<usize>>,
        tolerance: Real,
        feasibility: Real,
    ) -> spec_fn(Counted, Counted, usize) -> bool {
        |s: Counted, t: Counted, g: usize|
            self.group_turn(
                s.model,
                t.model,
                groups[g as int]@,
                tolerance,
                feasibility,
                true,
                (t.count - s.count) as nat,
            ) && s.count <= t.count
    }

    /// Compare the rows whose fingerprints agree, group by group. Returns how many
    /// pairs were compared, or two rows with multipliers that prove the model
    /// infeasible.
    pub fn parallel_rows<F: Fn(Real) -> u32>(
        &self,
        model: &mut Model,
        tolerance: Real,
        feasibility: Real,
        f: &F,
    ) -> (r: Result<u128, ((usize, Real), (usize, Real))>)
        requires
            self.wf(),
            old(model).wf(),
            parallel::rounds(*f),
        ensures
            self.parallel_rows_done(
                *old(model),
                *final(model),
                tolerance,
                feasibility,
                *f,
                r,
            ),
    {
        let keys = self.row_keys(model, f);
        let groups = candidate_groups(&keys);
        let rows: usize = model.rows.len();
        proof {
            reveal(Arithmetic::rows_grouped);
            assert(self.rows_grouped(*model, groups@, *f));
            assert forall|h: int, a: int|
                0 <= h < groups@.len() && 0 <= a < groups@[h]@.len() implies (
            #[trigger] groups@[h]@[a]) < rows by {
                assert(grouping::is_group(groups@[h]@, keys@));
            }
            assert forall|h: int, a: int, b: int|
                0 <= h < groups@.len() && 0 <= a < b < groups@[h]@.len() implies (
            #[trigger] groups@[h]@[a]) < (#[trigger] groups@[h]@[b]) by {
                assert(grouping::is_group(groups@[h]@, keys@));
            }
            assert forall|h: int| 0 <= h < groups@.len() implies (#[trigger] groups@[h])@.len()
                >= 2 by {
                assert(grouping::is_group(groups@[h]@, keys@));
            }
        }
        let ghost turns = self.group_turns(groups@, tolerance, feasibility);
        let ghost mut states: Seq<Counted> = seq![Counted { model: *model, count: 0 }];
        let ghost mut items: Seq<usize> = Seq::empty();
        let mut count: u128 = 0;
        let mut g: usize = 0;
        while g < groups.len()
            invariant
                g <= groups@.len(),
                self.wf(),
                model.wf(),
                model.rows@.len() == rows,
                model.bounds@.len() == old(model).bounds@.len(),
                self.rows_grouped(*old(model), groups@, *f),
                forall|h: int, a: int|
                    0 <= h < groups@.len() && 0 <= a < groups@[h]@.len() ==> (
                    #[trigger] groups@[h]@[a]) < rows,
                forall|h: int, a: int, b: int|
                    0 <= h < groups@.len() && 0 <= a < b < groups@[h]@.len() ==> (
                    #[trigger] groups@[h]@[a]) < (#[trigger] groups@[h]@[b]),
                forall|h: int| 0 <= h < groups@.len() ==> (#[trigger] groups@[h])@.len() >= 2,
                turns == self.group_turns(groups@, tolerance, feasibility),
                passes::walk(turns, states, items),
                states[0] == (Counted { model: *old(model), count: 0 }),
                states.last().model == *model,
                count == twins::countable(states.last().count),
                items.len() == g,
                forall|t: int| 0 <= t < items.len() ==> #[trigger] items[t] == t,
            decreases groups@.len() - g,
        {
            let ghost before = *model;
            let group = &groups[g];
            assert(groups@[g as int]@.len() >= 2);
            assert forall|k: int| 0 <= k < group@.len() implies (#[trigger] group@[k])
                < model.rows@.len() by {
                assert(groups@[g as int]@[k] < rows);
            }
            assert forall|a: int, b: int| 0 <= a < b < group@.len() implies (#[trigger] group@[a])
                < (#[trigger] group@[b]) by {
                assert(groups@[g as int]@[a] < groups@[g as int]@[b]);
            }
            let r = self.sweep_group(model, group, tolerance, feasibility);
            assert(self.group_turn(
                before,
                *model,
                groups@[g as int]@,
                tolerance,
                feasibility,
                r is Ok,
                count_of(r),
            ));
            match r {
                Ok(n) => {
                    proof {
                        let s = states.last();
                        let t = Counted { model: *model, count: s.count + n as nat };
                        assert(turns(s, t, g));
                        passes::walk_on(turns, states, items, t, g);
                        states = states.push(t);
                        items = items.push(g);
                    }
                    count = if count <= u128::MAX - n {
                        count + n
                    } else {
                        u128::MAX
                    };
                },
                Err(found) => {
                    return Err(found);
                },
            }
            g = g + 1;
        }
        Ok(count)
    }
}

proof fn distinct_rows(order: Seq<usize>, rest: Seq<usize>)
    requires
        order.to_multiset() == rest.to_multiset(),
        forall|a: int, b: int|
            0 <= a < b < rest.len() ==> (#[trigger] rest[a]) < (#[trigger] rest[b]),
    ensures
        order.no_duplicates(),
{
    assert(rest.no_duplicates());
    rest.lemma_multiset_has_no_duplicates();
    order.lemma_multiset_has_no_duplicates_conv();
}

impl<
    P: Fn(Real, Real) -> Real,
    T: Fn(Real, Real) -> Real,
    D: Fn(Real, Real) -> Real,
    H: Fn(Real, Real) -> Real,
> Arithmetic<P, T, D, H> {
    /// What a search for parallel rows does and reports.
    pub open spec fn parallel_rows_done<F: Fn(Real) -> u32>(
        &self,
        before: Model,
        after: Model,
        tolerance: Real,
        feasibility: Real,
        f: F,
        r: Result<u128, ((usize, Real), (usize, Real))>,
    ) -> bool {
        &&& after.wf()
        &&& after.bounds@.len() == before.bounds@.len()
        &&& exists|groups: Seq<Vec<usize>>, states: Seq<Counted>, items: Seq<usize>|
                {
                    &&& #[trigger] self.rows_grouped(before, groups, f)
                    &&& #[trigger] passes::walk(
                        self.group_turns(groups, tolerance, feasibility),
                        states,
                        items,
                    )
                    &&& states[0] == (Counted { model: before, count: 0 })
                    &&& items.len() <= groups.len()
                    &&& forall|g: int| 0 <= g < items.len() ==> #[trigger] items[g] == g
                    &&& match r {
                        Ok(n) => items.len() == groups.len() && states.last().model
                            == after && n == twins::countable(states.last().count),
                        Err(((i, y), (j, z))) => {
                            &&& items.len() < groups.len()
                            &&& self.group_turn(
                                states.last().model,
                                after,
                                groups[items.len() as int]@,
                                tolerance,
                                feasibility,
                                false,
                                0,
                            )
                            &&& self.conflict(
                                after,
                                i,
                                y,
                                j,
                                z,
                                tolerance,
                                feasibility,
                            )
                        },
                    }
                }
    }
}

} // verus!
