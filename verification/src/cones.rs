//! Incremental, exact structural cone simplification.

use crate::bounds::{Bounds, RowDomain};
use crate::cone::Cone;
use crate::linked::{self, NONE};
use crate::model::{self, Model, Rule};
use crate::queues;
use crate::number::{neg_infinity, Real};
use crate::tape;
use vstd::prelude::*;

verus! {

/// No coefficient is stored in a row.
pub open spec fn constant_row(a: Map<(int, int), Real>, i: int) -> bool {
    forall|j: int| !#[trigger] a.contains_key((i, j))
}

pub open spec fn rhs_of(domain: RowDomain) -> Real {
    match domain {
        RowDomain::Cone { rhs, .. } => rhs,
        _ => crate::number::zero(),
    }
}

/// The coordinate is identically zero.
pub open spec fn zero_at(model: Model, i: int) -> bool {
    constant_row(model.a@, i) && rhs_of(model.rows@[i]).zero()
}

/// The linear row that a cone coordinate becomes: zero, or at most its right-hand side.
pub open spec fn linear_domain(domain: RowDomain, equality: bool) -> RowDomain {
    if equality {
        RowDomain::Linear(Bounds::fixed(rhs_of(domain)))
    } else {
        RowDomain::Linear(Bounds { lower: neg_infinity(), upper: rhs_of(domain) })
    }
}

/// The record that restores a coordinate's slack.
pub open spec fn is_slack(rule: Rule, row: usize, model: Model) -> bool {
    rule matches Rule::ConeSlack { row: r, rhs, entries } && r == row && rhs == rhs_of(
        model.rows@[row as int],
    ) && linked::lists_line(entries@, model.a@, false, row as int)
}

/// Live coordinates of one block: distinct rows that belong to it.
pub open spec fn coordinates(model: Model, rows: Seq<usize>) -> bool {
    &&& rows.no_duplicates()
    &&& forall|k: int|
        0 <= k < rows.len() ==> (#[trigger] rows[k]) < model.rows@.len()
            && model.rows@[rows[k] as int] is Cone
}

/// Nothing but rows, queues, caches, locks and the tape differs.
pub open spec fn same_frame(new: Model, old: Model) -> bool {
    &&& new.a@ == old.a@
    &&& new.a.column_count() == old.a.column_count()
    &&& new.rows@.len() == old.rows@.len()
    &&& new.bounds@ == old.bounds@
    &&& new.alive@ == old.alive@
    &&& new.cones@ == old.cones@
    &&& new.cone_rows@ == old.cone_rows@
}

/// The listed coordinates became linear rows, recorded in order.
pub open spec fn linearised(new: Model, old: Model, list: Seq<usize>, equality: bool) -> bool {
    &&& same_frame(new, old)
    &&& forall|i: int|
        0 <= i < new.rows@.len() ==> #[trigger] new.rows@[i] == (if list.contains(i as usize) {
            linear_domain(old.rows@[i], equality)
        } else {
            old.rows@[i]
        })
    &&& new.changed_cones@ == old.changed_cones@
    &&& new.revision == old.revision + list.len()
    &&& new.tape@.len() == old.tape@.len() + list.len()
    &&& forall|k: int| 0 <= k < old.tape@.len() ==> #[trigger] new.tape@[k] == old.tape@[k]
    &&& forall|k: int|
        0 <= k < list.len() ==> is_slack(
            #[trigger] new.tape@[old.tape@.len() + k],
            list[k],
            old,
        )
}

/// The records of deleting constant coordinates: a nonzero slack is kept.
pub open spec fn drop_records(
    tape: Seq<Rule>,
    start: Seq<Rule>,
    list: Seq<usize>,
    model: Model,
) -> bool
    decreases list.len(),
{
    if list.len() == 0 {
        tape == start
    } else {
        let row = list.last();
        &&& tape.len() > 0
        &&& tape.last() == Rule::DeletedRow(row)
        &&& if rhs_of(model.rows@[row as int]).zero() {
            drop_records(tape.drop_last(), start, list.drop_last(), model)
        } else {
            &&& tape.len() > 1
            &&& is_slack(tape[tape.len() - 2], row, model)
            &&& drop_records(tape.drop_last().drop_last(), start, list.drop_last(), model)
        }
    }
}

/// The listed constant coordinates were deleted, recorded in order.
pub open spec fn dropped(new: Model, old: Model, list: Seq<usize>) -> bool {
    &&& same_frame(new, old)
    &&& forall|i: int|
        0 <= i < new.rows@.len() ==> #[trigger] new.rows@[i] == (if list.contains(i as usize) {
            RowDomain::Deleted
        } else {
            old.rows@[i]
        })
    &&& new.changed_cones@ == old.changed_cones@
    &&& new.revision == old.revision + list.len()
    &&& drop_records(new.tape@, old.tape@, list, old)
}

impl Model {
    pub(crate) fn cone_rhs(&self, i: usize) -> (rhs: Real)
        requires
            i < self.rows@.len(),
        ensures
            rhs == rhs_of(self.rows@[i as int]),
    {
        match self.rows[i] {
            RowDomain::Cone { rhs, .. } => rhs,
            _ => crate::number::zero(),
        }
    }

    pub(crate) fn is_constant(&self, i: usize) -> (b: bool)
        requires
            self.wf(),
            i < self.rows@.len(),
        ensures
            b == constant_row(self.a@, i as int),
    {
        let entries = self.a.row(i).to_vec();
        proof {
            if entries@.len() > 0 {
                assert(self.a@.contains_key(linked::place(false, i as int, entries@[0].0 as int)));
                assert(self.a@.contains_key((i as int, entries@[0].0 as int)));
            } else {
                assert forall|j: int| !#[trigger] self.a@.contains_key((i as int, j)) by {
                    if self.a@.contains_key((i as int, j)) {
                        assert(self.a@.contains_key(linked::place(false, i as int, j)));
                    }
                }
            }
        }
        entries.len() == 0
    }

    /// Whether a cone coordinate is identically zero.
    pub fn zero_coordinate(&self, i: usize) -> (b: bool)
        requires
            self.wf(),
            i < self.rows@.len(),
        ensures
            b == zero_at(*self, i as int),
    {
        self.is_constant(i) && self.cone_rhs(i).is_zero()
    }

    /// Delete a constant coordinate. A nonzero slack is recorded.
    fn remove_cone_row(&mut self, i: usize)
        requires
            old(self).wf(),
            i < old(self).rows@.len(),
            old(self).rows@[i as int] is Cone,
            constant_row(old(self).a@, i as int),
            old(self).revision < usize::MAX,
        ensures
            final(self).wf(),
            same_frame(*final(self), *old(self)),
            final(self).rows@ == old(self).rows@.update(i as int, RowDomain::Deleted),
            final(self).changed_cones@ == old(self).changed_cones@,
            final(self).revision == old(self).revision + 1,
            final(self).tape@.len() > 0,
            final(self).tape@.last() == Rule::DeletedRow(i),
            rhs_of(old(self).rows@[i as int]).zero() ==> final(self).tape@.drop_last() == old(
                self,
            ).tape@,
            !rhs_of(old(self).rows@[i as int]).zero() ==> {
                &&& final(self).tape@.len() > 1
                &&& is_slack(final(self).tape@[final(self).tape@.len() - 2], i, *old(self))
                &&& final(self).tape@.drop_last().drop_last() == old(self).tape@
            },
    {
        let ghost start = *self;
        let rhs = self.cone_rhs(i);
        if !rhs.is_zero() {
            let entries = self.a.row(i).to_vec();
            self.tape.push(Rule::ConeSlack { row: i, rhs, entries });
        }
        let ghost recorded = self.tape@;
        self.drop_domain(i);
        self.tape.push(Rule::DeletedRow(i));
        proof {
            assert(self.tape@.drop_last() =~= recorded);
            if !rhs.zero() {
                assert(recorded.drop_last() =~= start.tape@);
                assert(self.tape@[self.tape@.len() - 2] == recorded.last());
            }
        }
    }

    /// Delete a constant row without a record.
    pub(crate) fn drop_domain(&mut self, i: usize)
        requires
            old(self).wf(),
            i < old(self).rows@.len(),
            constant_row(old(self).a@, i as int),
            old(self).revision < usize::MAX,
        ensures
            final(self).wf(),
            same_frame(*final(self), *old(self)),
            final(self).rows@ == old(self).rows@.update(i as int, RowDomain::Deleted),
            final(self).changed_cones@ == old(self).changed_cones@,
            final(self).revision == old(self).revision + 1,
            final(self).tape@ == old(self).tape@,
    {
        let ghost start = *self;
        proof {
            fits(*self);
        }
        self.clear_row(i);
        proof {
            assert forall|r: int, j: int| #[trigger] self.a@.contains_key((r, j))
                <==> start.a@.contains_key((r, j)) by {
                if r == i {
                    if self.a@.contains_key((r, j)) {
                        assert(self.a@.contains_key(linked::place(false, r, j)));
                    }
                    assert(!start.a@.contains_key((i as int, j)));
                }
            }
            assert forall|p: (int, int)| self.a@.contains_key(p) <==> start.a@.contains_key(p) by {
                assert(p == (p.0, p.1));
                assert(self.a@.contains_key((p.0, p.1)) <==> start.a@.contains_key((p.0, p.1)));
            }
            assert forall|p: (int, int)| #[trigger] self.a@.contains_key(p) implies self.a@[p]
                == start.a@[p] by {
                assert(p == (p.0, p.1));
                assert(self.a@.contains_key((p.0, p.1)));
                assert(p.0 != i) by {
                    if p.0 == i {
                        assert(start.a@.contains_key((i as int, p.1)));
                    }
                }
            }
            assert(self.a@ =~= start.a@);
        }
    }

    /// Turn a coordinate into a linear row: equal to or at most its right-hand side.
    fn linear_cone_row(&mut self, i: usize, equality: bool)
        requires
            old(self).wf(),
            i < old(self).rows@.len(),
            old(self).rows@[i as int] is Cone,
            old(self).revision < usize::MAX,
        ensures
            final(self).wf(),
            same_frame(*final(self), *old(self)),
            final(self).rows@ == old(self).rows@.update(
                i as int,
                linear_domain(old(self).rows@[i as int], equality),
            ),
            final(self).changed_cones@ == old(self).changed_cones@,
            final(self).revision == old(self).revision + 1,
            final(self).tape@.len() == old(self).tape@.len() + 1,
            final(self).tape@.drop_last() == old(self).tape@,
            is_slack(final(self).tape@.last(), i, *old(self)),
    {
        let ghost start = *self;
        let rhs = self.cone_rhs(i);
        let entries = self.a.row(i).to_vec();
        proof {
            self.a.stored_positions();
            assert forall|k: int| 0 <= k < entries@.len() implies (#[trigger] entries@[k]).0
                < self.bounds@.len() by {
                assert(self.a@.contains_key(
                    linked::place(false, i as int, entries@[k].0 as int),
                ));
                assert(self.a@.contains_key((i as int, entries@[k].0 as int)));
            }
        }
        let bounds = if equality {
            Bounds::fixed(rhs)
        } else {
            Bounds { lower: neg_infinity(), upper: rhs }
        };
        self.replace_domain(i, RowDomain::Linear(bounds));
        self.tape.push(Rule::ConeSlack { row: i, rhs, entries });
        assert(self.tape@.drop_last() =~= start.tape@);
    }

    /// Turn coordinates into linear rows.
    pub fn linearise(&mut self, list: &Vec<usize>, equality: bool)
        requires
            old(self).wf(),
            coordinates(*old(self), list@),
            old(self).revision + list@.len() <= usize::MAX,
        ensures
            final(self).wf(),
            linearised(*final(self), *old(self), list@, equality),
    {
        let ghost start = *self;
        let mut k: usize = 0;
        proof {
            assert(list@.take(0) =~= Seq::<usize>::empty());
        }
        while k < list.len()
            invariant
                k <= list@.len(),
                start.wf(),
                coordinates(start, list@),
                start.revision + list@.len() <= usize::MAX,
                self.wf(),
                linearised(*self, start, list@.take(k as int), equality),
            decreases list@.len() - k,
        {
            let i: usize = list[k];
            let ghost before = *self;
            proof {
                let less = list@.take(k as int);
                assert(!less.contains(i)) by {
                    if less.contains(i) {
                        let a = choose|a: int| 0 <= a < less.len() && less[a] == i;
                        assert(list@[a] == list@[k as int]);
                    }
                }
                assert(self.rows@[i as int] == start.rows@[i as int]);
            }
            self.linear_cone_row(i, equality);
            proof {
                let less = list@.take(k as int);
                let more = list@.take(k + 1);
                assert(more =~= less.push(i));
                assert forall|r: int| 0 <= r < self.rows@.len() implies #[trigger] self.rows@[r]
                    == (if more.contains(r as usize) {
                    linear_domain(start.rows@[r], equality)
                } else {
                    start.rows@[r]
                }) by {
                    assert(r <= usize::MAX) by {
                        assert(self.rows.len() == self.rows@.len());
                    }
                    contains_pushed(less, i, r as usize);
                    assert(before.rows@[r] == (if less.contains(r as usize) {
                        linear_domain(start.rows@[r], equality)
                    } else {
                        start.rows@[r]
                    }));
                }
                let n = start.tape@.len();
                assert forall|t: int| 0 <= t < n implies #[trigger] self.tape@[t]
                    == start.tape@[t] by {
                    assert(before.tape@[t] == self.tape@.drop_last()[t]);
                }
                assert forall|t: int| 0 <= t < more.len() implies is_slack(
                    #[trigger] self.tape@[n + t],
                    more[t],
                    start,
                ) by {
                    if t < less.len() {
                        assert(before.tape@[n + t] == self.tape@.drop_last()[n + t]);
                        assert(less[t] == more[t]);
                    } else {
                        assert(self.tape@[n + t] == self.tape@.last());
                    }
                }
            }
            k = k + 1;
        }
        assert(list@.take(k as int) =~= list@);
    }

    /// Delete constant coordinates.
    pub fn drop_rows(&mut self, list: &Vec<usize>)
        requires
            old(self).wf(),
            coordinates(*old(self), list@),
            forall|k: int| 0 <= k < list@.len() ==> constant_row(
                old(self).a@,
                (#[trigger] list@[k]) as int,
            ),
            old(self).revision + list@.len() <= usize::MAX,
        ensures
            final(self).wf(),
            dropped(*final(self), *old(self), list@),
    {
        let ghost start = *self;
        let mut k: usize = 0;
        proof {
            assert(list@.take(0) =~= Seq::<usize>::empty());
        }
        while k < list.len()
            invariant
                k <= list@.len(),
                start.wf(),
                coordinates(start, list@),
                forall|k: int| 0 <= k < list@.len() ==> constant_row(
                    start.a@,
                    (#[trigger] list@[k]) as int,
                ),
                start.revision + list@.len() <= usize::MAX,
                self.wf(),
                dropped(*self, start, list@.take(k as int)),
            decreases list@.len() - k,
        {
            let i: usize = list[k];
            let ghost before = *self;
            proof {
                let less = list@.take(k as int);
                assert(!less.contains(i)) by {
                    if less.contains(i) {
                        let a = choose|a: int| 0 <= a < less.len() && less[a] == i;
                        assert(list@[a] == list@[k as int]);
                    }
                }
                assert(self.rows@[i as int] == start.rows@[i as int]);
                assert(constant_row(start.a@, list@[k as int] as int));
            }
            self.remove_cone_row(i);
            proof {
                let less = list@.take(k as int);
                let more = list@.take(k + 1);
                assert(more =~= less.push(i));
                assert(more.drop_last() =~= less);
                assert forall|r: int| 0 <= r < self.rows@.len() implies #[trigger] self.rows@[r]
                    == (if more.contains(r as usize) {
                    RowDomain::Deleted
                } else {
                    start.rows@[r]
                }) by {
                    assert(r <= usize::MAX) by {
                        assert(self.rows.len() == self.rows@.len());
                    }
                    contains_pushed(less, i, r as usize);
                    assert(before.rows@[r] == (if less.contains(r as usize) {
                        RowDomain::Deleted
                    } else {
                        start.rows@[r]
                    }));
                }
                if !rhs_of(start.rows@[i as int]).zero() {
                    assert(is_slack(self.tape@[self.tape@.len() - 2], i, start));
                }
            }
            k = k + 1;
        }
        assert(list@.take(k as int) =~= list@);
    }
}

/// The blocks that a queue holds after new blocks were scheduled in order.
pub open spec fn blocks_scheduled(changed: Seq<usize>, base: nat, count: nat) -> Seq<usize>
    decreases count,
{
    if count == 0 {
        changed
    } else {
        queues::scheduled(
            blocks_scheduled(changed, base, (count - 1) as nat),
            (base + count - 1) as usize,
        )
    }
}

/// Coordinates of one block moved to new semidefinite blocks at the end.
pub open spec fn regrouped(
    new: Model,
    old: Model,
    blocks: Seq<Vec<usize>>,
    orders: Seq<usize>,
) -> bool {
    let base = old.cones@.len();
    &&& new.a == old.a
    &&& new.bounds@ == old.bounds@
    &&& new.alive@ == old.alive@
    &&& new.queues == old.queues
    &&& new.revision == old.revision
    &&& new.tape@ == old.tape@
    &&& new.rows@.len() == old.rows@.len()
    &&& forall|i: int, g: int|
        0 <= i < new.rows@.len() && 0 <= g < blocks.len() && #[trigger] blocks[g]@.contains(
            i as usize,
        ) ==> #[trigger] new.rows@[i] == (RowDomain::Cone {
            rhs: rhs_of(old.rows@[i]),
            block: (base + g) as usize,
        })
    &&& forall|i: int|
        0 <= i < new.rows@.len() && (forall|g: int|
            0 <= g < blocks.len() ==> !#[trigger] blocks[g]@.contains(i as usize))
            ==> #[trigger] new.rows@[i] == old.rows@[i]
    &&& new.cones@.len() == base + blocks.len()
    &&& new.cone_rows@.len() == base + blocks.len()
    &&& forall|b: int|
        0 <= b < base ==> #[trigger] new.cones@[b] == old.cones@[b] && new.cone_rows@[b]
            == old.cone_rows@[b]
    &&& forall|g: int|
        0 <= g < blocks.len() ==> #[trigger] new.cones@[base + g]
            == (Cone::PositiveSemidefinite { order: orders[g] }) && new.cone_rows@[base + g]@
            == blocks[g]@
    &&& new.changed_cones@ == blocks_scheduled(old.changed_cones@, base, blocks.len())
}

impl Model {
    /// Move the coordinates in `rows` to a block.
    fn assign_block(&mut self, rows: &Vec<usize>, block: usize)
        requires
            old(self).wf(),
            coordinates(*old(self), rows@),
            block < usize::MAX,
        ensures
            final(self).wf(),
            *final(self) == (Model { rows: final(self).rows, ..*old(self) }),
            final(self).rows@.len() == old(self).rows@.len(),
            forall|i: int|
                0 <= i < final(self).rows@.len() ==> #[trigger] final(self).rows@[i] == (
                if rows@.contains(i as usize) {
                    RowDomain::Cone { rhs: rhs_of(old(self).rows@[i]), block }
                } else {
                    old(self).rows@[i]
                }),
    {
        let ghost start = *self;
        let mut k: usize = 0;
        while k < rows.len()
            invariant
                k <= rows@.len(),
                block < usize::MAX,
                start.wf(),
                coordinates(start, rows@),
                *self == (Model { rows: self.rows, ..start }),
                self.rows@.len() == start.rows@.len(),
                forall|i: int|
                    0 <= i < self.rows@.len() ==> #[trigger] self.rows@[i] == (
                    if rows@.take(k as int).contains(i as usize) {
                        RowDomain::Cone { rhs: rhs_of(start.rows@[i]), block }
                    } else {
                        start.rows@[i]
                    }),
            decreases rows@.len() - k,
        {
            let row: usize = rows[k];
            let ghost before = *self;
            proof {
                let less = rows@.take(k as int);
                if less.contains(row) {
                    let a = choose|a: int| 0 <= a < less.len() && less[a] == row;
                    assert(rows@[a] == rows@[k as int]);
                }
            }
            let rhs = self.cone_rhs(row);
            self.rows.set(row, RowDomain::Cone { rhs, block });
            proof {
                let less = rows@.take(k as int);
                assert(rows@.take(k + 1) =~= less.push(row));
                assert forall|i: int| 0 <= i < self.rows@.len() implies #[trigger] self.rows@[i]
                    == (if rows@.take(k + 1).contains(i as usize) {
                    RowDomain::Cone { rhs: rhs_of(start.rows@[i]), block }
                } else {
                    start.rows@[i]
                }) by {
                    assert(self.rows.len() == self.rows@.len());
                    contains_pushed(less, row, i as usize);
                    assert(before.rows@[i] == (if less.contains(i as usize) {
                        RowDomain::Cone { rhs: rhs_of(start.rows@[i]), block }
                    } else {
                        start.rows@[i]
                    }));
                }
            }
            k = k + 1;
        }
        proof {
            assert(rows@.take(k as int) =~= rows@);
            assert forall|i: int| 0 <= i < self.rows@.len() && rows@.contains(
                i as usize,
            ) implies start.rows@[i] is Cone by {
                assert(self.rows.len() == self.rows@.len());
                let a = choose|a: int| 0 <= a < rows@.len() && rows@[a] == i as usize;
                assert(start.rows@[rows@[a] as int] is Cone);
            }
            start.a.stored_positions();
            assert forall|j: int| 0 <= j < self.locks@.len() implies {
                &&& (#[trigger] self.locks@[j]).up == model::locking(
                    self.a@,
                    self.rows@,
                    j,
                    true,
                ).len()
                &&& self.locks@[j].down == model::locking(self.a@, self.rows@, j, false).len()
            } by {
                assert forall|i: int| self.a@.contains_key((i, j)) implies #[trigger] self.rows@[i]
                    is Cone == start.rows@[i] is Cone && (!(self.rows@[i] is Cone)
                    ==> self.rows@[i] == start.rows@[i]) by {
                    assert(start.a@.contains_key((i, j)));
                }
                assert(model::locking(self.a@, self.rows@, j, true) =~= model::locking(
                    start.a@,
                    start.rows@,
                    j,
                    true,
                ));
                assert(model::locking(self.a@, self.rows@, j, false) =~= model::locking(
                    start.a@,
                    start.rows@,
                    j,
                    false,
                ));
                assert(start.locks@[j] == self.locks@[j]);
            }
            assert forall|i: int, j: int| #[trigger] self.a@.contains_key((i, j)) implies !(
            self.rows@[i] is Deleted) by {
                assert(start.a@.contains_key((i, j)));
                assert(!(start.rows@[i] is Deleted));
                assert(self.rows@[i] == self.rows@[i]);
            }
        }
    }

    /// Move disjoint groups of coordinates to new semidefinite blocks.
    pub(crate) fn move_blocks(&mut self, blocks: Vec<Vec<usize>>, orders: &Vec<usize>)
        requires
            old(self).wf(),
            old(self).cone_rows@.len() == old(self).cones@.len(),
            blocks@.len() == orders@.len(),
            old(self).cones@.len() + blocks@.len() < usize::MAX,
            forall|g: int|
                0 <= g < blocks@.len() ==> coordinates(*old(self), (#[trigger] blocks@[g])@),
            forall|g: int, h: int, row: usize|
                0 <= g < blocks@.len() && 0 <= h < blocks@.len() && g != h
                    && #[trigger] blocks@[g]@.contains(row) ==> !#[trigger] blocks@[h]@.contains(
                    row,
                ),
        ensures
            final(self).wf(),
            regrouped(*final(self), *old(self), blocks@, orders@),
    {
        let ghost start = *self;
        let ghost base = self.cones@.len();
        let mut blocks = blocks;
        let ghost all = blocks@;
        let mut g: usize = 0;
        while g < blocks.len()
            invariant
                g <= blocks@.len(),
                blocks@.len() == all.len(),
                all.len() == orders@.len(),
                start.wf(),
                base == start.cones@.len(),
                start.cone_rows@.len() == base,
                base + all.len() < usize::MAX,
                forall|h: int| g <= h < all.len() ==> #[trigger] blocks@[h] == all[h],
                forall|g: int|
                    0 <= g < all.len() ==> coordinates(start, (#[trigger] all[g])@),
                forall|g: int, h: int, row: usize|
                    0 <= g < all.len() && 0 <= h < all.len() && g != h
                        && #[trigger] all[g]@.contains(row) ==> !#[trigger] all[h]@.contains(row),
                self.wf(),
                self.a == start.a,
                self.bounds@ == start.bounds@,
                self.alive@ == start.alive@,
                self.queues == start.queues,
                self.revision == start.revision,
                self.tape@ == start.tape@,
                self.rows@.len() == start.rows@.len(),
                forall|i: int, h: int|
                    0 <= i < self.rows@.len() && 0 <= h < g && #[trigger] all[h]@.contains(
                        i as usize,
                    ) ==> #[trigger] self.rows@[i] == (RowDomain::Cone {
                        rhs: rhs_of(start.rows@[i]),
                        block: (base + h) as usize,
                    }),
                forall|i: int|
                    0 <= i < self.rows@.len() && (forall|h: int|
                        0 <= h < g ==> !#[trigger] all[h]@.contains(i as usize))
                        ==> #[trigger] self.rows@[i] == start.rows@[i],
                self.cones@.len() == base + g,
                self.cone_rows@.len() == base + g,
                forall|b: int|
                    0 <= b < base ==> #[trigger] self.cones@[b] == start.cones@[b]
                        && self.cone_rows@[b] == start.cone_rows@[b],
                forall|h: int|
                    0 <= h < g ==> #[trigger] self.cones@[base + h]
                        == (Cone::PositiveSemidefinite { order: orders@[h] })
                        && self.cone_rows@[base + h]@ == all[h]@,
                self.changed_cones@ == blocks_scheduled(
                    start.changed_cones@,
                    base,
                    g as nat,
                ),
            decreases blocks@.len() - g,
        {
            let ghost before = *self;
            let block: usize = self.cones.len();
            let mut rows: Vec<usize> = Vec::new();
            std::mem::swap(&mut rows, &mut blocks[g]);
            proof {
                assert(rows == all[g as int]);
                assert(coordinates(start, all[g as int]@));
                assert forall|k: int| 0 <= k < rows@.len() implies (#[trigger] rows@[k])
                    < self.rows@.len() && self.rows@[rows@[k] as int] is Cone by {
                    assert(all[g as int]@.contains(rows@[k]));
                    assert(start.rows@[rows@[k] as int] is Cone);
                    assert(self.rows@[rows@[k] as int] == start.rows@[rows@[k] as int]);
                }
            }
            self.assign_block(&rows, block);
            let order: usize = orders[g];
            self.cones.push(Cone::PositiveSemidefinite { order });
            self.cone_rows.push(rows);
            self.changed_cones.push(block);
            g = g + 1;
            proof {
                assert forall|i: int, h: int|
                    0 <= i < self.rows@.len() && 0 <= h < g && #[trigger] all[h]@.contains(
                        i as usize,
                    ) implies #[trigger] self.rows@[i] == (RowDomain::Cone {
                    rhs: rhs_of(start.rows@[i]),
                    block: (base + h) as usize,
                }) by {
                    if h == g - 1 {
                        assert(before.rows@[i] == start.rows@[i]);
                    } else {
                        assert(!all[g - 1]@.contains(i as usize));
                        assert(before.rows@[i] == before.rows@[i]);
                    }
                }
                assert forall|i: int|
                    0 <= i < self.rows@.len() && (forall|h: int|
                        0 <= h < g ==> !#[trigger] all[h]@.contains(
                            i as usize,
                        )) implies #[trigger] self.rows@[i] == start.rows@[i] by {
                    assert(!all[g - 1]@.contains(i as usize));
                    assert(before.rows@[i] == start.rows@[i]);
                }
                assert forall|b: int| 0 <= b < base implies #[trigger] self.cones@[b]
                    == start.cones@[b] && self.cone_rows@[b] == start.cone_rows@[b] by {
                    assert(self.cones@[b] == before.cones@[b]);
                    assert(self.cone_rows@[b] == before.cone_rows@[b]);
                }
                assert forall|h: int| 0 <= h < g implies #[trigger] self.cones@[base + h]
                    == (Cone::PositiveSemidefinite { order: orders@[h] })
                    && self.cone_rows@[base + h]@ == all[h]@ by {
                    if h < g - 1 {
                        assert(self.cones@[base + h] == before.cones@[base + h]);
                        assert(self.cone_rows@[base + h] == before.cone_rows@[base + h]);
                    }
                }
            }
        }
    }
}

/// A stored matrix counts its entries in 32 bits.
proof fn fits(model: Model)
    requires
        model.wf(),
    ensures
        model.a@.dom().len() <= NONE,
{
    model.a.stored_count_fits();
}

pub proof fn contains_pushed(list: Seq<usize>, i: usize, r: usize)
    ensures
        list.push(i).contains(r) <==> list.contains(r) || r == i,
{
    let more = list.push(i);
    assert(more[list.len() as int] == i);
    if list.contains(r) {
        let a = choose|a: int| 0 <= a < list.len() && list[a] == r;
        assert(more[a] == r);
    }
}

} // verus!
