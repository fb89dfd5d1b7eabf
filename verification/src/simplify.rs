//! One step of structural cone simplification, and the order in which blocks are taken.

use crate::components;
use crate::cone::{self, Cone};
use crate::cones;
use crate::model::{Model, Rule};
use crate::number::Real;
use crate::bounds::RowDomain;
use crate::semidefinite::{self, Split};
use vstd::prelude::*;

verus! {

/// The row still belongs to the block.
pub open spec fn member(rows: Seq<RowDomain>, i: int, block: usize) -> bool {
    rows[i] matches RowDomain::Cone { block: b, .. } && b == block
}

/// The live coordinates of a block, in order.
pub open spec fn live(model: Model, block: usize) -> Seq<usize> {
    live_prefix(model.rows@, model.cone_rows@[block as int]@, block)
}

pub open spec fn live_prefix(rows: Seq<RowDomain>, listed: Seq<usize>, block: usize) -> Seq<usize>
    decreases listed.len(),
{
    if listed.len() == 0 {
        Seq::empty()
    } else if member(rows, listed.last() as int, block) {
        live_prefix(rows, listed.drop_last(), block).push(listed.last())
    } else {
        live_prefix(rows, listed.drop_last(), block)
    }
}

/// The rows of every block are listed once and exist.
pub open spec fn blocks_wf(model: Model) -> bool {
    &&& model.cone_rows@.len() == model.cones@.len()
    &&& forall|b: int|
        0 <= b < model.cones@.len() ==> (#[trigger] model.cone_rows@[b])@.no_duplicates()
    &&& forall|b: int, k: int|
        0 <= b < model.cones@.len() && 0 <= k < model.cone_rows@[b]@.len() ==> (
        #[trigger] model.cone_rows@[b]@[k]) < model.rows@.len()
}

/// A block that has something to simplify.
pub open spec fn active(model: Model, block: usize) -> bool {
    block < model.cones@.len() && live(model, block).len() > 0
        && !(model.cones@[block as int] is Opaque)
}

/// The block's live coordinates match its cone.
pub open spec fn shaped(cone: Cone, count: nat) -> bool {
    match cone {
        Cone::SecondOrder(_) => count >= 1,
        Cone::RotatedSecondOrder(_) => count >= 2,
        Cone::PositiveSemidefinite { order } => count == cone::triangle(order as int),
        _ => true,
    }
}

/// The coordinates of a list that are identically zero.
pub open spec fn zeros_of(model: Model, list: Seq<usize>) -> Seq<usize>
    decreases list.len(),
{
    if list.len() == 0 {
        Seq::empty()
    } else if cones::zero_at(model, list.last() as int) {
        zeros_of(model, list.drop_last()).push(list.last())
    } else {
        zeros_of(model, list.drop_last())
    }
}

/// The coordinates of a list that are not identically zero.
pub open spec fn nonzeros_of(model: Model, list: Seq<usize>) -> Seq<usize>
    decreases list.len(),
{
    if list.len() == 0 {
        Seq::empty()
    } else if cones::zero_at(model, list.last() as int) {
        nonzeros_of(model, list.drop_last())
    } else {
        nonzeros_of(model, list.drop_last()).push(list.last())
    }
}

/// The listed constant rows were deleted and nothing was recorded.
pub open spec fn erased(new: Model, old: Model, list: Seq<usize>) -> bool {
    &&& cones::same_frame(new, old)
    &&& forall|i: int|
        0 <= i < new.rows@.len() ==> #[trigger] new.rows@[i] == (if list.contains(i as usize) {
            RowDomain::Deleted
        } else {
            old.rows@[i]
        })
    &&& new.changed_cones@ == old.changed_cones@
    &&& new.revision == old.revision + list.len()
    &&& new.tape@ == old.tape@
}

/// One more record; nothing else changed.
pub open spec fn recorded(new: Model, old: Model) -> bool {
    &&& new == (Model { tape: new.tape, ..old })
    &&& new.tape@.len() == old.tape@.len() + 1
    &&& new.tape@.drop_last() == old.tape@
}

/// The block keeps only some coordinates and may have another cone.
pub open spec fn reshaped(
    new: Model,
    old: Model,
    block: usize,
    cone: Cone,
    kept: Seq<usize>,
) -> bool {
    &&& new == (Model { cones: new.cones, cone_rows: new.cone_rows, ..old })
    &&& new.cones@ == old.cones@.update(block as int, cone)
    &&& new.cone_rows@.len() == old.cone_rows@.len()
    &&& new.cone_rows@[block as int]@ == kept
    &&& forall|b: int|
        0 <= b < new.cone_rows@.len() && b != block ==> #[trigger] new.cone_rows@[b]
            == old.cone_rows@[b]
}

/// Zero coordinates after the first `fixed` ones were dropped from the block.
pub open spec fn trimmed(
    new: Model,
    old: Model,
    block: usize,
    rows: Seq<usize>,
    fixed: int,
    cone: Cone,
) -> bool {
    exists|mid: Model| #[trigger]
        cones::dropped(mid, old, zeros_of(old, rows.skip(fixed))) && reshaped(
            new,
            mid,
            block,
            cone,
            rows.take(fixed) + nonzeros_of(old, rows.skip(fixed)),
        )
}

/// A second-order cone with a zero head: every tail coordinate is zero.
pub open spec fn soc_face(new: Model, old: Model, rows: Seq<usize>) -> bool {
    exists|bare: Model, mid: Model|
        {
            &&& #[trigger] erased(bare, old, seq![rows[0]])
            &&& #[trigger] cones::linearised(mid, bare, rows.skip(1), true)
            &&& recorded(new, mid)
            &&& new.tape@.last() matches Rule::SocFace { head, tail }
            &&& head == rows[0]
            &&& tail@ == rows.skip(1)
        }
}

/// The diagonal and the off-diagonal rows of the first columns of a triangle.
pub open spec fn diagonal_rows(rows: Seq<usize>, order: nat) -> Seq<usize> {
    Seq::new(order, |j: int| rows[semidefinite::coordinate(j, j)])
}

pub open spec fn off_diagonal(rows: Seq<usize>, order: nat) -> Seq<usize>
    decreases order,
{
    if order == 0 {
        Seq::empty()
    } else {
        off_diagonal(rows, (order - 1) as nat) + Seq::new(
            (order - 1) as nat,
            |i: int| rows[semidefinite::coordinate(i, order - 1)],
        )
    }
}

/// A semidefinite block with a zero diagonal: every off-diagonal entry is zero.
pub open spec fn psd_face(new: Model, old: Model, rows: Seq<usize>, order: usize) -> bool {
    exists|bare: Model, mid: Model|
        {
            &&& #[trigger] erased(bare, old, diagonal_rows(rows, order as nat))
            &&& #[trigger] cones::linearised(mid, bare, off_diagonal(rows, order as nat), true)
            &&& recorded(new, mid)
            &&& new.tape@.last() matches Rule::PsdZeroFace { rows: r, order: n }
            &&& r@ == rows
            &&& n == order
        }
}

/// Which coordinates of a block are not identically zero.
pub open spec fn marks_of(model: Model, rows: Seq<usize>) -> Seq<bool> {
    Seq::new(rows.len(), |k: int| !cones::zero_at(model, rows[k] as int))
}

/// The block lists no coordinates any more.
pub open spec fn emptied(new: Model, old: Model, block: usize) -> bool {
    &&& new == (Model { cone_rows: new.cone_rows, revision: new.revision, ..old })
    &&& new.revision == old.revision + 1
    &&& new.cone_rows@.len() == old.cone_rows@.len()
    &&& new.cone_rows@[block as int]@ == Seq::<usize>::empty()
    &&& forall|b: int|
        0 <= b < new.cone_rows@.len() && b != block ==> #[trigger] new.cone_rows@[b]
            == old.cone_rows@[b]
}

/// The parts of a block went their ways: singles became linear rows, groups
/// became blocks of their own, and the rows between them were dropped.
pub open spec fn divided(new: Model, old: Model, block: usize, split: Split) -> bool {
    exists|lone: Model, moved: Model, bare: Model|
        {
            &&& #[trigger] cones::linearised(lone, old, split.singles@, false)
            &&& #[trigger] cones::regrouped(moved, lone, split.blocks@, split.orders@)
            &&& #[trigger] cones::dropped(bare, moved, split.rest@)
            &&& emptied(new, bare, block)
        }
}

/// A semidefinite block split along the classes of a labelling.
pub open spec fn psd_split(
    new: Model,
    old: Model,
    block: usize,
    rows: Seq<usize>,
    labels: Seq<usize>,
) -> bool {
    exists|split: Split|
        {
            &&& #[trigger] semidefinite::split_parts(
                split,
                rows,
                labels,
                components::classes(labels, labels.len()),
            )
            &&& divided(new, old, block, split)
        }
}

/// A semidefinite block split along the components of its nonzero pattern.
pub open spec fn psd_stepped(
    new: Model,
    old: Model,
    block: usize,
    rows: Seq<usize>,
    order: usize,
) -> bool {
    exists|labels: Seq<usize>|
        {
            &&& labels.len() == order
            &&& #[trigger] components::labels_components(
                labels,
                components::triangle_edge(marks_of(old, rows), order as int),
            )
            &&& if components::classes(labels, labels.len()).len() == 1 && order != 1 {
                new == old
            } else {
                psd_split(new, old, block, rows, labels)
            }
        }
}

/// The parts of a split are disjoint lists of coordinates, and the rows between
/// the groups are constant.
spec fn separable(model: Model, count: nat, split: Split) -> bool {
    &&& cones::coordinates(model, split.singles@)
    &&& cones::coordinates(model, split.rest@)
    &&& forall|k: int|
        0 <= k < split.rest@.len() ==> cones::constant_row(
            model.a@,
            (#[trigger] split.rest@[k]) as int,
        )
    &&& forall|g: int|
        0 <= g < split.blocks@.len() ==> cones::coordinates(
            model,
            (#[trigger] split.blocks@[g])@,
        )
    &&& forall|row: usize| #[trigger]
        split.rest@.contains(row) ==> !split.singles@.contains(row)
    &&& forall|g: int, row: usize|
        0 <= g < split.blocks@.len() && #[trigger] split.blocks@[g]@.contains(row)
            ==> !split.singles@.contains(row) && !split.rest@.contains(row)
    &&& forall|g: int, h: int, row: usize|
        0 <= g < split.blocks@.len() && 0 <= h < split.blocks@.len() && g != h
            && #[trigger] split.blocks@[g]@.contains(row)
            ==> !#[trigger] split.blocks@[h]@.contains(row)
    &&& split.blocks@.len() == split.orders@.len()
    &&& split.singles@.len() <= count
    &&& split.rest@.len() <= count
    &&& split.blocks@.len() <= count
}

/// What one step found.
#[derive(Clone, Copy, Debug, PartialEq, Eq, Structural)]
pub enum Outcome {
    /// Nothing is left to do for the block now.
    Settled,
    /// The head of a second-order cone is a negative constant.
    Separated { head: usize },
    /// Two coordinates of a second-order cone are left; their sum and
    /// difference decide.
    Pair { head: usize, tail: usize },
}

/// What a step does to a block, by the kind of its cone.
pub open spec fn stepped(
    new: Model,
    old: Model,
    block: usize,
    rows: Seq<usize>,
    feasibility: Real,
    outcome: Outcome,
) -> bool {
    match old.cones@[block as int] {
        Cone::Zero(_) => cones::linearised(new, old, rows, true) && outcome is Settled,
        Cone::Nonnegative(_) => cones::linearised(new, old, rows, false) && outcome is Settled,
        Cone::SecondOrder(_) => soc_stepped(new, old, block, rows, feasibility, outcome),
        Cone::RotatedSecondOrder(_) => {
            let kept = rows.take(2) + nonzeros_of(old, rows.skip(2));
            let cone = Cone::RotatedSecondOrder(kept.len() as usize);
            &&& outcome is Settled
            &&& if kept.len() == 2 {
                exists|mid: Model| #[trigger]
                    trimmed(mid, old, block, rows, 2, cone) && cones::linearised(
                        new,
                        mid,
                        kept,
                        false,
                    )
            } else {
                trimmed(new, old, block, rows, 2, cone)
            }
        },
        Cone::PositiveSemidefinite { order } => {
            &&& outcome is Settled
            &&& if forall|j: int|
                0 <= j < order ==> cones::zero_at(
                    old,
                    rows[#[trigger] semidefinite::coordinate(j, j)] as int,
                ) {
                psd_face(new, old, rows, order)
            } else {
                psd_stepped(new, old, block, rows, order)
            }
        },
        _ => new == old && outcome is Settled,
    }
}

/// What a step does to a second-order block.
pub open spec fn soc_stepped(
    new: Model,
    old: Model,
    block: usize,
    rows: Seq<usize>,
    feasibility: Real,
    outcome: Outcome,
) -> bool {
    let head = rows[0];
    let kept = rows.take(1) + nonzeros_of(old, rows.skip(1));
    let cone = Cone::SecondOrder(kept.len() as usize);
    if cones::constant_row(old.a@, head as int) && cones::rhs_of(old.rows@[head as int]).lt(
        feasibility.opposite(),
    ) {
        new == old && outcome == (Outcome::Separated { head })
    } else if cones::zero_at(old, head as int) {
        soc_face(new, old, rows) && outcome is Settled
    } else if kept.len() == 1 {
        outcome is Settled && exists|mid: Model| #[trigger]
            trimmed(mid, old, block, rows, 1, cone) && cones::linearised(
                new,
                mid,
                seq![head],
                false,
            )
    } else {
        &&& trimmed(new, old, block, rows, 1, cone)
        &&& outcome == (if kept.len() == 2 {
            Outcome::Pair { head, tail: kept[1] }
        } else {
            Outcome::Settled
        })
    }
}

pub proof fn live_rows_are_listed(rows: Seq<RowDomain>, listed: Seq<usize>, block: usize)
    requires
        listed.no_duplicates(),
        forall|k: int| 0 <= k < listed.len() ==> (#[trigger] listed[k]) < rows.len(),
    ensures
        live_prefix(rows, listed, block).no_duplicates(),
        live_prefix(rows, listed, block).len() <= listed.len(),
        forall|k: int|
            0 <= k < live_prefix(rows, listed, block).len() ==> {
                let row = #[trigger] live_prefix(rows, listed, block)[k];
                listed.contains(row) && row < rows.len() && member(rows, row as int, block)
            },
    decreases listed.len(),
{
    if listed.len() > 0 {
        let less = listed.drop_last();
        assert(forall|k: int| 0 <= k < less.len() ==> #[trigger] less[k] == listed[k]);
        live_rows_are_listed(rows, less, block);
        let before = live_prefix(rows, less, block);
        let after = live_prefix(rows, listed, block);
        assert forall|k: int| 0 <= k < after.len() implies listed.contains(#[trigger] after[k]) by {
            if k < before.len() {
                assert(less.contains(before[k]));
                let a = choose|a: int| 0 <= a < less.len() && less[a] == before[k];
                assert(listed[a] == after[k]);
            } else {
                assert(listed[listed.len() - 1] == after[k]);
            }
        }
        assert forall|k: int, l: int| 0 <= k < l < after.len() implies after[k] != after[l] by {
            if l == before.len() {
                assert(less.contains(before[k]));
                let a = choose|a: int| 0 <= a < less.len() && less[a] == before[k];
                assert(listed[a] == before[k]);
                assert(listed[a] != listed[listed.len() - 1]);
            } else {
                assert(after[k] == before[k] && after[l] == before[l]);
            }
        }
    }
}

/// The two parts of a list by a test hold distinct members of it.
proof fn parts_are_exact(model: Model, list: Seq<usize>)
    requires
        list.no_duplicates(),
    ensures
        zeros_of(model, list).no_duplicates(),
        nonzeros_of(model, list).no_duplicates(),
        zeros_of(model, list).len() + nonzeros_of(model, list).len() == list.len(),
        forall|k: int|
            0 <= k < zeros_of(model, list).len() ==> {
                let row = #[trigger] zeros_of(model, list)[k];
                list.contains(row) && cones::zero_at(model, row as int)
            },
        forall|k: int|
            0 <= k < nonzeros_of(model, list).len() ==> {
                let row = #[trigger] nonzeros_of(model, list)[k];
                list.contains(row) && !cones::zero_at(model, row as int)
            },
    decreases list.len(),
{
    if list.len() > 0 {
        let less = list.drop_last();
        assert(forall|k: int| 0 <= k < less.len() ==> #[trigger] less[k] == list[k]);
        parts_are_exact(model, less);
        let last = list.last();
        assert(list[list.len() - 1] == last);
        assert forall|row: usize| #[trigger] less.contains(row) implies list.contains(row) && row
            != last by {
            let a = choose|a: int| 0 <= a < less.len() && less[a] == row;
            assert(list[a] == row);
        }
        let zeros = zeros_of(model, less);
        let others = nonzeros_of(model, less);
        assert forall|k: int| 0 <= k < zeros.len() implies #[trigger] zeros[k] != last
            && list.contains(zeros[k]) by {
            assert(less.contains(zeros[k]));
        }
        assert forall|k: int| 0 <= k < others.len() implies #[trigger] others[k] != last
            && list.contains(others[k]) by {
            assert(less.contains(others[k]));
        }
    }
}

impl Model {
    /// The live coordinates of a block.
    pub fn live_rows(&self, block: usize) -> (rows: Vec<usize>)
        requires
            blocks_wf(*self),
            block < self.cones@.len(),
        ensures
            rows@ == live(*self, block),
    {
        let mut rows: Vec<usize> = Vec::new();
        let ghost listed = self.cone_rows@[block as int]@;
        let mut k: usize = 0;
        assert(listed.take(0) =~= Seq::<usize>::empty());
        while k < self.cone_rows[block].len()
            invariant
                blocks_wf(*self),
                block < self.cones@.len(),
                listed == self.cone_rows@[block as int]@,
                k <= listed.len(),
                rows@ == live_prefix(self.rows@, listed.take(k as int), block),
            decreases listed.len() - k,
        {
            let i: usize = self.cone_rows[block][k];
            assert(self.cone_rows@[block as int]@[k as int] < self.rows@.len());
            assert(listed.take(k + 1).drop_last() =~= listed.take(k as int));
            match self.rows[i] {
                RowDomain::Cone { block: b, .. } => {
                    if b == block {
                        rows.push(i);
                    }
                },
                _ => {},
            }
            k = k + 1;
        }
        assert(listed.take(k as int) =~= listed);
        rows
    }

    /// Take the next block that has something to simplify off the queue.
    pub fn take_cone(&mut self) -> (taken: Option<usize>)
        requires
            old(self).wf(),
            blocks_wf(*old(self)),
        ensures
            final(self).wf(),
            blocks_wf(*final(self)),
            *final(self) == (Model { changed_cones: final(self).changed_cones, ..*old(self) }),
            match taken {
                Some(block) => exists|n: int|
                    {
                        &&& 0 <= n < old(self).changed_cones@.len()
                        &&& old(self).changed_cones@[n] == block
                        &&& active(*old(self), block)
                        &&& final(self).changed_cones@ == #[trigger] old(self).changed_cones@.take(
                            n,
                        )
                        &&& forall|k: int|
                            n < k < old(self).changed_cones@.len() ==> !active(
                                *old(self),
                                #[trigger] old(self).changed_cones@[k],
                            )
                    },
                None => final(self).changed_cones@.len() == 0 && forall|k: int|
                    0 <= k < old(self).changed_cones@.len() ==> !active(
                        *old(self),
                        #[trigger] old(self).changed_cones@[k],
                    ),
            },
    {
        let ghost start = *self;
        let ghost waiting = self.changed_cones@;
        assert(waiting.take(waiting.len() as int) =~= waiting);
        loop
            invariant
                start == *old(self),
                start.wf(),
                blocks_wf(start),
                waiting == start.changed_cones@,
                self.changed_cones.wf(),
                *self == (Model { changed_cones: self.changed_cones, ..start }),
                self.changed_cones@.len() <= waiting.len(),
                self.changed_cones@ == waiting.take(self.changed_cones@.len() as int),
                forall|k: int|
                    self.changed_cones@.len() <= k < waiting.len() ==> !active(
                        start,
                        #[trigger] waiting[k],
                    ),
            decreases self.changed_cones@.len(),
        {
            let ghost n = self.changed_cones@.len();
            match self.changed_cones.pop() {
                None => {
                    assert(*self == (Model { changed_cones: self.changed_cones, ..start }));
                    return None;
                },
                Some(block) => {
                    proof {
                        assert(waiting[n - 1] == block);
                        assert(self.changed_cones@ =~= waiting.take(n - 1));
                    }
                    if block < self.cones.len() {
                        let rows = self.live_rows(block);
                        assert(live(*self, block) == live(start, block));
                        let opaque = match self.cones[block] {
                            Cone::Opaque { .. } => true,
                            _ => false,
                        };
                        if rows.len() > 0 && !opaque {
                            return Some(block);
                        }
                    }
                },
            }
        }
    }

    /// Whether every coordinate of a list is constant.
    pub fn all_constant(&self, rows: &Vec<usize>) -> (b: bool)
        requires
            self.wf(),
            forall|k: int| 0 <= k < rows@.len() ==> (#[trigger] rows@[k]) < self.rows@.len(),
        ensures
            b == forall|k: int|
                0 <= k < rows@.len() ==> cones::constant_row(
                    self.a@,
                    (#[trigger] rows@[k]) as int,
                ),
    {
        let mut k: usize = 0;
        while k < rows.len()
            invariant
                k <= rows@.len(),
                self.wf(),
                forall|k: int| 0 <= k < rows@.len() ==> (#[trigger] rows@[k]) < self.rows@.len(),
                forall|l: int|
                    0 <= l < k ==> cones::constant_row(self.a@, (#[trigger] rows@[l]) as int),
            decreases rows@.len() - k,
        {
            if !self.is_constant(rows[k]) {
                assert(!cones::constant_row(self.a@, rows@[k as int] as int));
                return false;
            }
            k = k + 1;
        }
        true
    }

    fn part_zeros(&self, rows: &Vec<usize>, fixed: usize) -> (parts: (Vec<usize>, Vec<usize>))
        requires
            self.wf(),
            fixed <= rows@.len(),
            forall|k: int| 0 <= k < rows@.len() ==> (#[trigger] rows@[k]) < self.rows@.len(),
        ensures
            parts.0@ == rows@.take(fixed as int) + nonzeros_of(*self, rows@.skip(fixed as int)),
            parts.1@ == zeros_of(*self, rows@.skip(fixed as int)),
    {
        let mut kept: Vec<usize> = Vec::new();
        let mut zeros: Vec<usize> = Vec::new();
        let mut k: usize = 0;
        while k < fixed
            invariant
                k <= fixed <= rows@.len(),
                kept@ == rows@.take(k as int),
            decreases fixed - k,
        {
            kept.push(rows[k]);
            k = k + 1;
            assert(kept@ =~= rows@.take(k as int));
        }
        let ghost tail = rows@.skip(fixed as int);
        assert(tail.take(0) =~= Seq::<usize>::empty());
        assert(kept@ =~= rows@.take(fixed as int) + nonzeros_of(*self, tail.take(0)));
        while k < rows.len()
            invariant
                fixed <= k <= rows@.len(),
                tail == rows@.skip(fixed as int),
                self.wf(),
                forall|k: int| 0 <= k < rows@.len() ==> (#[trigger] rows@[k]) < self.rows@.len(),
                kept@ == rows@.take(fixed as int) + nonzeros_of(*self, tail.take(k - fixed)),
                zeros@ == zeros_of(*self, tail.take(k - fixed)),
            decreases rows@.len() - k,
        {
            let row: usize = rows[k];
            proof {
                assert(tail.take(k + 1 - fixed).drop_last() =~= tail.take(k - fixed));
                assert(tail.take(k + 1 - fixed).last() == row);
            }
            if self.zero_coordinate(row) {
                zeros.push(row);
            } else {
                kept.push(row);
            }
            k = k + 1;
            assert(kept@ =~= rows@.take(fixed as int) + nonzeros_of(*self, tail.take(k - fixed)));
        }
        assert(tail.take(k - fixed) =~= tail);
        (kept, zeros)
    }

    /// Delete constant rows without a record.
    fn erase_rows(&mut self, list: &Vec<usize>)
        requires
            old(self).wf(),
            cones::coordinates(*old(self), list@),
            forall|k: int| 0 <= k < list@.len() ==> cones::constant_row(
                old(self).a@,
                (#[trigger] list@[k]) as int,
            ),
            old(self).revision + list@.len() <= usize::MAX,
        ensures
            final(self).wf(),
            erased(*final(self), *old(self), list@),
    {
        let ghost start = *self;
        let mut k: usize = 0;
        assert(list@.take(0) =~= Seq::<usize>::empty());
        while k < list.len()
            invariant
                k <= list@.len(),
                cones::coordinates(start, list@),
                forall|k: int| 0 <= k < list@.len() ==> cones::constant_row(
                    start.a@,
                    (#[trigger] list@[k]) as int,
                ),
                start.revision + list@.len() <= usize::MAX,
                self.wf(),
                erased(*self, start, list@.take(k as int)),
            decreases list@.len() - k,
        {
            let i: usize = list[k];
            let ghost before = *self;
            assert(cones::constant_row(start.a@, list@[k as int] as int));
            self.drop_domain(i);
            proof {
                let less = list@.take(k as int);
                let more = list@.take(k + 1);
                assert(more =~= less.push(i));
                assert forall|r: int| 0 <= r < self.rows@.len() implies #[trigger] self.rows@[r]
                    == (if more.contains(r as usize) {
                    RowDomain::Deleted
                } else {
                    start.rows@[r]
                }) by {
                    assert(self.rows.len() == self.rows@.len());
                    cones::contains_pushed(less, i, r as usize);
                    assert(before.rows@[r] == (if less.contains(r as usize) {
                        RowDomain::Deleted
                    } else {
                        start.rows@[r]
                    }));
                }
            }
            k = k + 1;
        }
        assert(list@.take(k as int) =~= list@);
    }

    /// Drop zero coordinates after the first `fixed` ones.
    fn trim_block(
        &mut self,
        block: usize,
        rows: &Vec<usize>,
        fixed: usize,
        rotated: bool,
    ) -> (kept: Vec<usize>)
        requires
            old(self).wf(),
            blocks_wf(*old(self)),
            block < old(self).cones@.len(),
            cones::coordinates(*old(self), rows@),
            fixed <= rows@.len(),
            old(self).revision + rows@.len() <= usize::MAX,
        ensures
            final(self).wf(),
            blocks_wf(*final(self)),
            kept@ == rows@.take(fixed as int) + nonzeros_of(*old(self), rows@.skip(fixed as int)),
            cones::coordinates(*final(self), kept@),
            kept@.len() <= rows@.len(),
            final(self).revision + kept@.len() <= old(self).revision + rows@.len(),
            trimmed(
                *final(self),
                *old(self),
                block,
                rows@,
                fixed as int,
                if rotated {
                    Cone::RotatedSecondOrder(kept.len())
                } else {
                    Cone::SecondOrder(kept.len())
                },
            ),
    {
        let ghost start = *self;
        let (kept, zeros): (Vec<usize>, Vec<usize>) = self.part_zeros(rows, fixed);
        proof {
            let tail = rows@.skip(fixed as int);
            assert(tail.no_duplicates()) by {
                assert forall|a: int, b: int| 0 <= a < tail.len() && 0 <= b < tail.len() && a
                    != b implies tail[a] != tail[b] by {
                    assert(tail[a] == rows@[fixed + a] && tail[b] == rows@[fixed + b]);
                }
            }
            parts_are_exact(start, tail);
            assert forall|k: int| 0 <= k < zeros@.len() implies (#[trigger] zeros@[k])
                < start.rows@.len() && start.rows@[zeros@[k] as int] is Cone
                && cones::constant_row(start.a@, zeros@[k] as int) by {
                assert(tail.contains(zeros@[k]));
                let a = choose|a: int| 0 <= a < tail.len() && tail[a] == zeros@[k];
                assert(rows@[fixed + a] == zeros@[k]);
            }
        }
        self.drop_rows(&zeros);
        let ghost mid = *self;
        let cone = if rotated {
            Cone::RotatedSecondOrder(kept.len())
        } else {
            Cone::SecondOrder(kept.len())
        };
        self.cones.set(block, cone);
        let copy = copy_list(&kept);
        self.cone_rows.set(block, copy);
        proof {
            let tail = rows@.skip(fixed as int);
            assert(reshaped(*self, mid, block, cone, kept@));
            assert(cones::dropped(mid, start, zeros@));
            let others = nonzeros_of(start, tail);
            assert forall|k: int| 0 <= k < kept@.len() implies rows@.contains(#[trigger] kept@[k])
                && (k >= fixed ==> !cones::zero_at(start, kept@[k] as int) && tail.contains(
                kept@[k],
            )) by {
                if k < fixed {
                    assert(rows@[k] == kept@[k]);
                } else {
                    assert(kept@[k] == others[k - fixed]);
                    assert(tail.contains(others[k - fixed]));
                    let a = choose|a: int| 0 <= a < tail.len() && tail[a] == others[k - fixed];
                    assert(rows@[fixed + a] == kept@[k]);
                }
            }
            assert forall|k: int| 0 <= k < kept@.len() implies (#[trigger] kept@[k])
                < self.rows@.len() && self.rows@[kept@[k] as int] is Cone by {
                assert(rows@.contains(kept@[k]));
                let a = choose|a: int| 0 <= a < rows@.len() && rows@[a] == kept@[k];
                assert(start.rows@[rows@[a] as int] is Cone);
                if zeros@.contains(kept@[k]) {
                    let z = choose|z: int| 0 <= z < zeros@.len() && zeros@[z] == kept@[k];
                    assert(cones::zero_at(start, zeros@[z] as int));
                    assert(k < fixed);
                    assert(tail.contains(zeros@[z]));
                    let t = choose|t: int| 0 <= t < tail.len() && tail[t] == zeros@[z];
                    assert(rows@[fixed + t] == rows@[k]);
                }
                assert(self.rows@[kept@[k] as int] == start.rows@[kept@[k] as int]);
            }
            assert forall|k: int, l: int| 0 <= k < kept@.len() && 0 <= l < kept@.len() && k
                != l implies kept@[k] != kept@[l] by {
                if k < fixed && l < fixed {
                    assert(rows@[k] != rows@[l]);
                } else if k >= fixed && l >= fixed {
                    assert(others[k - fixed] != others[l - fixed]);
                } else {
                    let (low, high) = if k < fixed {
                        (k, l)
                    } else {
                        (l, k)
                    };
                    assert(tail.contains(kept@[high]));
                    let t = choose|t: int| 0 <= t < tail.len() && tail[t] == kept@[high];
                    assert(rows@[fixed + t] != rows@[low]);
                }
            }
        }
        kept
    }
}

/// Dropping the first rows of a list leaves coordinates.
proof fn tail_coordinates(model: Model, rows: Seq<usize>, from: int)
    requires
        cones::coordinates(model, rows),
        0 <= from <= rows.len(),
    ensures
        cones::coordinates(model, rows.skip(from)),
        forall|k: int|
            0 <= k < from ==> !rows.skip(from).contains(#[trigger] rows[k]),
{
    let tail = rows.skip(from);
    assert forall|k: int| 0 <= k < tail.len() implies #[trigger] tail[k] == rows[from + k] by {}
    assert forall|k: int| 0 <= k < from implies !tail.contains(#[trigger] rows[k]) by {
        if tail.contains(rows[k]) {
            let a = choose|a: int| 0 <= a < tail.len() && tail[a] == rows[k];
            assert(rows[from + a] == rows[k]);
        }
    }
}

/// A row at an entry above the diagonal of the first columns.
spec fn above_diagonal(rows: Seq<usize>, columns: nat, row: usize) -> bool {
    exists|i: int, j: int|
        0 <= i < j < columns && row == rows[#[trigger] semidefinite::coordinate(i, j)]
}

/// The diagonal and the rest of a triangle of distinct rows share nothing.
proof fn diagonal_parts(rows: Seq<usize>, order: nat, columns: nat)
    requires
        rows.no_duplicates(),
        rows.len() == cone::triangle(order as int),
        columns <= order,
    ensures
        diagonal_rows(rows, order).no_duplicates(),
        off_diagonal(rows, columns).no_duplicates(),
        diagonal_rows(rows, order).len() + off_diagonal(rows, order).len() <= rows.len(),
        off_diagonal(rows, columns).len() + columns == cone::triangle(columns as int),
        forall|k: int|
            0 <= k < off_diagonal(rows, columns).len() ==> above_diagonal(
                rows,
                columns,
                #[trigger] off_diagonal(rows, columns)[k],
            ),
        forall|k: int|
            0 <= k < off_diagonal(rows, columns).len() ==> !diagonal_rows(rows, order).contains(
                #[trigger] off_diagonal(rows, columns)[k],
            ) && rows.contains(off_diagonal(rows, columns)[k]),
        forall|k: int|
            0 <= k < order ==> rows.contains(#[trigger] diagonal_rows(rows, order)[k]),
    decreases columns,
{
    let n = order as int;
    let diagonal = diagonal_rows(rows, order);
    assert forall|k: int| 0 <= k < order implies rows.contains(#[trigger] diagonal[k]) by {
        cone::coordinates_are_distinct(k, k, k, k, n);
    }
    assert forall|k: int, l: int| 0 <= k < order && 0 <= l < order && k != l implies diagonal[k]
        != diagonal[l] by {
        cone::coordinates_are_distinct(k, k, l, l, n);
        cone::coordinates_are_distinct(l, l, k, k, n);
    }
    if columns > 0 {
        let less = (columns - 1) as nat;
        diagonal_parts(rows, order, less);
        cone::triangle_step(less as int);
        let before = off_diagonal(rows, less);
        let column = Seq::new(less, |i: int| rows[semidefinite::coordinate(i, columns - 1)]);
        let after = off_diagonal(rows, columns);
        assert(after == before + column);
        assert forall|k: int| 0 <= k < after.len() implies above_diagonal(
            rows,
            columns,
            #[trigger] after[k],
        ) by {
            if k < before.len() {
                assert(after[k] == before[k]);
                assert(above_diagonal(rows, less, before[k]));
                let (i, j) = choose|i: int, j: int|
                    0 <= i < j < less && before[k]
                        == rows[#[trigger] semidefinite::coordinate(i, j)];
                assert(after[k] == rows[semidefinite::coordinate(i, j)]);
            } else {
                assert(after[k] == column[k - before.len()]);
                assert(after[k] == rows[semidefinite::coordinate(
                    k - before.len(),
                    less as int,
                )]);
            }
        }
        assert forall|k: int| 0 <= k < after.len() implies !diagonal.contains(
            #[trigger] after[k],
        ) && rows.contains(after[k]) by {
            let (i, j) = choose|i: int, j: int|
                0 <= i < j < columns && after[k] == rows[#[trigger] semidefinite::coordinate(i, j)];
            cone::coordinates_are_distinct(i, j, i, j, n);
            if diagonal.contains(after[k]) {
                let l = choose|l: int| 0 <= l < diagonal.len() && diagonal[l] == after[k];
                cone::coordinates_are_distinct(i, j, l, l, n);
                cone::coordinates_are_distinct(l, l, i, j, n);
            }
        }
        assert forall|k: int, l: int| 0 <= k < l < after.len() implies after[k] != after[l] by {
            if l < before.len() {
                assert(after[k] == before[k] && after[l] == before[l]);
            } else {
                let c = l - before.len();
                assert(after[l] == column[c]);
                if k < before.len() {
                    assert(after[k] == before[k]);
                    assert(above_diagonal(rows, less, before[k]));
                    let (i, j) = choose|i: int, j: int|
                        0 <= i < j < less && before[k]
                            == rows[#[trigger] semidefinite::coordinate(i, j)];
                    cone::coordinates_are_distinct(i, j, c, less as int, n);
                    cone::coordinates_are_distinct(c, less as int, i, j, n);
                } else {
                    let d = k - before.len();
                    assert(after[k] == column[d]);
                    cone::coordinates_are_distinct(d, less as int, c, less as int, n);
                    cone::coordinates_are_distinct(c, less as int, d, less as int, n);
                }
            }
        }
    } else {
        cone::triangle_step(0);
    }
    if columns == order {
        cone::triangle_step(n);
    } else {
        diagonal_count(rows, order);
    }
}

proof fn diagonal_count(rows: Seq<usize>, columns: nat)
    ensures
        off_diagonal(rows, columns).len() + columns == cone::triangle(columns as int),
    decreases columns,
{
    if columns > 0 {
        diagonal_count(rows, (columns - 1) as nat);
        cone::triangle_step(columns - 1);
    } else {
        cone::triangle_step(0);
    }
}

fn take_diagonal(rows: &Vec<usize>, order: usize) -> (list: Vec<usize>)
    requires
        rows@.len() == cone::triangle(order as int),
    ensures
        list@ == diagonal_rows(rows@, order as nat),
{
    let mut list: Vec<usize> = Vec::new();
    let mut j: usize = 0;
    while j < order
        invariant
            j <= order,
            rows@.len() == cone::triangle(order as int),
            list@ == diagonal_rows(rows@, j as nat),
        decreases order - j,
    {
        proof {
            cone::coordinates_are_distinct(j as int, j as int, j as int, j as int, order as int);
        }
        let k: usize = semidefinite::packed_index(j, j, rows.len());
        list.push(rows[k]);
        j = j + 1;
        assert(list@ =~= diagonal_rows(rows@, j as nat));
    }
    list
}

fn take_off_diagonal(rows: &Vec<usize>, order: usize) -> (list: Vec<usize>)
    requires
        rows@.len() == cone::triangle(order as int),
    ensures
        list@ == off_diagonal(rows@, order as nat),
{
    let mut list: Vec<usize> = Vec::new();
    let mut j: usize = 0;
    while j < order
        invariant
            j <= order,
            rows@.len() == cone::triangle(order as int),
            list@ == off_diagonal(rows@, j as nat),
        decreases order - j,
    {
        let ghost start = list@;
        let mut i: usize = 0;
        while i < j
            invariant
                i <= j < order,
                rows@.len() == cone::triangle(order as int),
                list@ == start + Seq::new(
                    i as nat,
                    |a: int| rows@[semidefinite::coordinate(a, j as int)],
                ),
            decreases j - i,
        {
            proof {
                cone::coordinates_are_distinct(
                    i as int,
                    j as int,
                    i as int,
                    j as int,
                    order as int,
                );
            }
            let k: usize = semidefinite::packed_index(i, j, rows.len());
            list.push(rows[k]);
            i = i + 1;
            assert(list@ =~= start + Seq::new(
                i as nat,
                |a: int| rows@[semidefinite::coordinate(a, j as int)],
            ));
        }
        j = j + 1;
        assert(list@ =~= start + Seq::new(
            (j - 1) as nat,
            |a: int| rows@[semidefinite::coordinate(a, j - 1)],
        ));
    }
    list
}

impl Model {
    /// A zero head pins every tail coordinate.
    fn take_soc_face(&mut self, rows: &Vec<usize>)
        requires
            old(self).wf(),
            blocks_wf(*old(self)),
            rows@.len() > 0,
            cones::coordinates(*old(self), rows@),
            cones::zero_at(*old(self), rows@[0] as int),
            old(self).revision + rows@.len() <= usize::MAX,
        ensures
            final(self).wf(),
            blocks_wf(*final(self)),
            soc_face(*final(self), *old(self), rows@),
    {
        let ghost start = *self;
        let head: usize = rows[0];
        let mut first: Vec<usize> = Vec::new();
        first.push(head);
        assert(first@ =~= seq![head]);
        self.erase_rows(&first);
        let ghost bare = *self;
        let tail = copy_from(rows, 1);
        proof {
            tail_coordinates(start, rows@, 1);
            assert forall|k: int| 0 <= k < tail@.len() implies (#[trigger] tail@[k])
                < bare.rows@.len() && bare.rows@[tail@[k] as int] is Cone by {
                assert(start.rows@[tail@[k] as int] is Cone);
                assert(tail@.contains(tail@[k]));
                assert(tail@[k] != rows@[0]);
                assert(!seq![head].contains(tail@[k]));
                assert(bare.rows@[tail@[k] as int] == start.rows@[tail@[k] as int]);
            }
        }
        self.linearise(&tail, true);
        let ghost mid = *self;
        self.tape.push(Rule::SocFace { head, tail });
        proof {
            assert(self.tape@.drop_last() =~= mid.tape@);
            assert(erased(bare, start, seq![rows@[0]]));
            assert(cones::linearised(mid, bare, rows@.skip(1), true));
            assert(recorded(*self, mid));
        }
    }

    /// A zero diagonal pins every off-diagonal coordinate.
    fn take_psd_face(&mut self, rows: &Vec<usize>, order: usize)
        requires
            old(self).wf(),
            blocks_wf(*old(self)),
            cones::coordinates(*old(self), rows@),
            rows@.len() == cone::triangle(order as int),
            forall|j: int|
                0 <= j < order ==> cones::zero_at(
                    *old(self),
                    rows@[#[trigger] semidefinite::coordinate(j, j)] as int,
                ),
            old(self).revision + rows@.len() <= usize::MAX,
        ensures
            final(self).wf(),
            blocks_wf(*final(self)),
            psd_face(*final(self), *old(self), rows@, order),
    {
        let ghost start = *self;
        let diagonal = take_diagonal(rows, order);
        let others = take_off_diagonal(rows, order);
        proof {
            diagonal_parts(rows@, order as nat, order as nat);
            assert forall|k: int| 0 <= k < diagonal@.len() implies (#[trigger] diagonal@[k])
                < start.rows@.len() && start.rows@[diagonal@[k] as int] is Cone
                && cones::constant_row(start.a@, diagonal@[k] as int) by {
                assert(rows@.contains(diagonal@[k]));
                let a = choose|a: int| 0 <= a < rows@.len() && rows@[a] == diagonal@[k];
                assert(start.rows@[rows@[a] as int] is Cone);
                assert(cones::zero_at(
                    start,
                    rows@[semidefinite::coordinate(k, k)] as int,
                ));
            }
        }
        self.erase_rows(&diagonal);
        let ghost bare = *self;
        proof {
            assert forall|k: int| 0 <= k < others@.len() implies (#[trigger] others@[k])
                < bare.rows@.len() && bare.rows@[others@[k] as int] is Cone by {
                assert(rows@.contains(others@[k]));
                let a = choose|a: int| 0 <= a < rows@.len() && rows@[a] == others@[k];
                assert(start.rows@[rows@[a] as int] is Cone);
                assert(!diagonal@.contains(others@[k]));
                assert(bare.rows@[others@[k] as int] == start.rows@[others@[k] as int]);
            }
        }
        self.linearise(&others, true);
        let ghost mid = *self;
        let copy = copy_list(rows);
        self.tape.push(Rule::PsdZeroFace { rows: copy, order });
        proof {
            assert(self.tape@.drop_last() =~= mid.tape@);
            assert(erased(bare, start, diagonal_rows(rows@, order as nat)));
            assert(cones::linearised(mid, bare, off_diagonal(rows@, order as nat), true));
            assert(recorded(*self, mid));
        }
    }
}

/// A list of distinct members of another list is no longer than it.
proof fn sublist_length(list: Seq<usize>, rows: Seq<usize>)
    requires
        list.no_duplicates(),
        forall|row: usize| #[trigger] list.contains(row) ==> rows.contains(row),
    ensures
        list.len() <= rows.len(),
{
    list.unique_seq_to_set();
    rows.lemma_cardinality_of_set();
    assert(list.to_set().subset_of(rows.to_set()));
    vstd::set_lib::lemma_len_subset(list.to_set(), rows.to_set());
}

proof fn classes_length(labels: Seq<usize>, bound: nat)
    ensures
        components::classes(labels, bound).len() <= bound,
    decreases bound,
{
    if bound > 0 {
        classes_length(labels, (bound - 1) as nat);
    }
}

proof fn split_is_separable(
    model: Model,
    rows: Seq<usize>,
    labels: Seq<usize>,
    order: usize,
    split: Split,
)
    requires
        model.wf(),
        cones::coordinates(model, rows),
        rows.len() == cone::triangle(order as int),
        labels.len() == order,
        components::labels_components(
            labels,
            components::triangle_edge(marks_of(model, rows), order as int),
        ),
        semidefinite::split_parts(
            split,
            rows,
            labels,
            components::classes(labels, labels.len()),
        ),
    ensures
        separable(model, rows.len(), split),
{
    let edge = components::triangle_edge(marks_of(model, rows), order as int);
    let classes = components::classes(labels, labels.len());
    semidefinite::classes_are_exact(labels, labels.len());
    semidefinite::split_parts_are_disjoint(split, rows, labels, classes);
    assert forall|row: usize| #[trigger] rows.contains(row) implies row < model.rows@.len()
        && model.rows@[row as int] is Cone by {
        let a = choose|a: int| 0 <= a < rows.len() && rows[a] == row;
        assert(model.rows@[rows[a] as int] is Cone);
    }
    assert forall|k: int| 0 <= k < split.singles@.len() implies (#[trigger] split.singles@[k])
        < model.rows@.len() && model.rows@[split.singles@[k] as int] is Cone by {
        assert(split.singles@.contains(split.singles@[k]));
    }
    assert forall|k: int| 0 <= k < split.rest@.len() implies (#[trigger] split.rest@[k])
        < model.rows@.len() && model.rows@[split.rest@[k] as int] is Cone
        && cones::constant_row(model.a@, split.rest@[k] as int) by {
        let row = split.rest@[k];
        assert(split.rest@.contains(row));
        let (a, b) = choose|a: int, b: int|
            b < labels.len() && #[trigger] semidefinite::across(rows, labels, row, a, b);
        cone::coordinates_are_distinct(a, b, a, b, order as int);
        if edge(a, b) {
            components::connection_is_an_equivalence(edge, a, b, b);
            assert(labels[a] == labels[b]);
        }
        assert(!marks_of(model, rows)[semidefinite::coordinate(a, b)]);
        assert(cones::zero_at(model, row as int));
    }
    assert forall|g: int| 0 <= g < split.blocks@.len() implies cones::coordinates(
        model,
        (#[trigger] split.blocks@[g])@,
    ) by {
        let list = split.blocks@[g]@;
        assert forall|k: int| 0 <= k < list.len() implies (#[trigger] list[k]) < model.rows@.len()
            && model.rows@[list[k] as int] is Cone by {
            assert(split.blocks@[g]@.contains(list[k]));
        }
    }
    sublist_length(split.singles@, rows);
    sublist_length(split.rest@, rows);
    classes_length(labels, labels.len());
    semidefinite::larger_classes(classes, labels);
    cone::triangle_step(order as int);
    assert(order <= cone::triangle(order as int)) by (nonlinear_arith)
        requires
            2 * cone::triangle(order as int) == order * (order + 1),
            order >= 0,
    ;
}

proof fn blocks_after_split(
    new: Model,
    bare: Model,
    moved: Model,
    lone: Model,
    old: Model,
    block: usize,
    split: Split,
)
    requires
        blocks_wf(old),
        emptied(new, bare, block),
        cones::linearised(lone, old, split.singles@, false),
        cones::regrouped(moved, lone, split.blocks@, split.orders@),
        cones::dropped(bare, moved, split.rest@),
        forall|g: int|
            0 <= g < split.blocks@.len() ==> cones::coordinates(
                lone,
                (#[trigger] split.blocks@[g])@,
            ),
        block < old.cones@.len(),
    ensures
        blocks_wf(new),
{
    let base = old.cones@.len();
    assert forall|b: int| 0 <= b < new.cones@.len() implies (
    #[trigger] new.cone_rows@[b])@.no_duplicates() && forall|k: int|
        0 <= k < new.cone_rows@[b]@.len() ==> (#[trigger] new.cone_rows@[b]@[k])
            < new.rows@.len() by {
        if b == block {
        } else if b >= base {
            assert(moved.cones@[base + (b - base)] == moved.cones@[b]);
            assert(new.cone_rows@[b]@ == split.blocks@[b - base]@);
            assert(cones::coordinates(lone, split.blocks@[b - base]@));
        } else {
            assert(moved.cones@[b] == lone.cones@[b]);
            assert(new.cone_rows@[b] == old.cone_rows@[b]);
            assert forall|k: int| 0 <= k < new.cone_rows@[b]@.len() implies (
            #[trigger] new.cone_rows@[b]@[k]) < new.rows@.len() by {
                assert(old.cone_rows@[b]@[k] < old.rows@.len());
            }
        }
    }
}

impl Model {
    fn mark_rows(&self, rows: &Vec<usize>) -> (marks: Vec<bool>)
        requires
            self.wf(),
            cones::coordinates(*self, rows@),
        ensures
            marks@ == marks_of(*self, rows@),
    {
        let mut marks: Vec<bool> = Vec::new();
        let mut k: usize = 0;
        while k < rows.len()
            invariant
                k <= rows@.len(),
                self.wf(),
                cones::coordinates(*self, rows@),
                marks@ == marks_of(*self, rows@).take(k as int),
            decreases rows@.len() - k,
        {
            let zero = self.zero_coordinate(rows[k]);
            marks.push(!zero);
            k = k + 1;
            assert(marks@ =~= marks_of(*self, rows@).take(k as int));
        }
        assert(marks_of(*self, rows@).take(k as int) =~= marks_of(*self, rows@));
        marks
    }

    /// Plan the split of a semidefinite block along the components of its
    /// nonzero pattern; there is nothing to split if they are all connected.
    fn plan_split(&self, rows: &Vec<usize>, order: usize) -> (plan: (
        Option<Split>,
        Ghost<Seq<usize>>,
    ))
        requires
            self.wf(),
            cones::coordinates(*self, rows@),
            rows@.len() == cone::triangle(order as int),
        ensures
            plan.1@.len() == order,
            components::labels_components(
                plan.1@,
                components::triangle_edge(marks_of(*self, rows@), order as int),
            ),
            match plan.0 {
                None => components::classes(plan.1@, plan.1@.len()).len() == 1 && order != 1,
                Some(split) => {
                    &&& !(components::classes(plan.1@, plan.1@.len()).len() == 1 && order != 1)
                    &&& semidefinite::split_parts(
                        split,
                        rows@,
                        plan.1@,
                        components::classes(plan.1@, plan.1@.len()),
                    )
                    &&& separable(*self, rows@.len(), split)
                },
            },
    {
        let marks = self.mark_rows(rows);
        let labels = components::component_labels(order, &marks);
        let groups = components::group_labels(&labels);
        let ghost edge = components::triangle_edge(marks_of(*self, rows@), order as int);
        let ghost classes = components::classes(labels@, labels@.len());
        assert(semidefinite::views(groups@) =~= classes);
        assert(components::labels_components(labels@, edge));
        if groups.len() == 1 && order != 1 {
            return (None, Ghost(labels@));
        }
        proof {
            assert(labels.len() == labels@.len());
            semidefinite::classes_are_exact(labels@, labels@.len());
        }
        let split = semidefinite::split_triangle(rows, &labels, &groups);
        proof {
            split_is_separable(*self, rows@, labels@, order, split);
        }
        (Some(split), Ghost(labels@))
    }

    /// Carry out a planned split.
    fn apply_split(&mut self, block: usize, split: Split)
        requires
            old(self).wf(),
            blocks_wf(*old(self)),
            block < old(self).cones@.len(),
            exists|count: nat|
                #![trigger separable(*old(self), count, split)]
                separable(*old(self), count, split) && old(self).revision + 2 * count + 1
                    <= usize::MAX && old(self).cones@.len() + count < usize::MAX,
        ensures
            final(self).wf(),
            blocks_wf(*final(self)),
            divided(*final(self), *old(self), block, split),
    {
        let ghost start = *self;
        let ghost parts = split;
        let ghost count = choose|count: nat|
            #![trigger separable(start, count, split)]
            separable(start, count, split) && start.revision + 2 * count + 1 <= usize::MAX
                && start.cones@.len() + count < usize::MAX;
        self.linearise(&split.singles, false);
        let ghost lone = *self;
        proof {
            assert forall|g: int| 0 <= g < parts.blocks@.len() implies cones::coordinates(
                lone,
                (#[trigger] parts.blocks@[g])@,
            ) by {
                let list = parts.blocks@[g]@;
                assert(cones::coordinates(start, list));
                assert forall|k: int| 0 <= k < list.len() implies (#[trigger] list[k])
                    < lone.rows@.len() && lone.rows@[list[k] as int] is Cone by {
                    assert(parts.blocks@[g]@.contains(list[k]));
                    assert(!parts.singles@.contains(list[k]));
                    assert(lone.rows@[list[k] as int] == start.rows@[list[k] as int]);
                }
            }
        }
        let Split { singles: _, blocks, orders, rest } = split;
        self.move_blocks(blocks, &orders);
        let ghost moved = *self;
        proof {
            assert forall|k: int| 0 <= k < rest@.len() implies (#[trigger] rest@[k])
                < moved.rows@.len() && moved.rows@[rest@[k] as int] is Cone by {
                let row = rest@[k];
                assert(parts.rest@.contains(row));
                assert forall|g: int| 0 <= g < parts.blocks@.len() implies !(
                #[trigger] parts.blocks@[g]@.contains(row)) by {}
                assert(start.rows@[row as int] is Cone);
                assert(lone.rows@[row as int] == start.rows@[row as int]);
                assert(moved.rows@[row as int] == lone.rows@[row as int]);
            }
        }
        self.drop_rows(&rest);
        let ghost bare = *self;
        self.cone_rows.set(block, Vec::new());
        self.revision = self.revision + 1;
        proof {
            blocks_after_split(*self, bare, moved, lone, start, block, parts);
            assert(cones::linearised(lone, start, parts.singles@, false));
            assert(cones::regrouped(moved, lone, parts.blocks@, parts.orders@));
            assert(cones::dropped(bare, moved, parts.rest@));
            assert(emptied(*self, bare, block));
        }
    }

    /// Split a semidefinite block along the components of its nonzero pattern.
    fn split_psd(&mut self, block: usize, rows: &Vec<usize>, order: usize)
        requires
            old(self).wf(),
            blocks_wf(*old(self)),
            block < old(self).cones@.len(),
            cones::coordinates(*old(self), rows@),
            rows@.len() == cone::triangle(order as int),
            old(self).revision + 2 * rows@.len() + 1 <= usize::MAX,
            old(self).cones@.len() + rows@.len() < usize::MAX,
        ensures
            final(self).wf(),
            blocks_wf(*final(self)),
            psd_stepped(*final(self), *old(self), block, rows@, order),
    {
        let ghost start = *self;
        let (plan, Ghost(labels)): (Option<Split>, Ghost<Seq<usize>>) = self.plan_split(
            rows,
            order,
        );
        match plan {
            None => {},
            Some(split) => {
                let ghost parts = split;
                assert(separable(*self, rows@.len(), split));
                self.apply_split(block, split);
                proof {
                    assert(semidefinite::split_parts(
                        parts,
                        rows@,
                        labels,
                        components::classes(labels, labels.len()),
                    ));
                    assert(psd_split(*self, start, block, rows@, labels));
                }
            },
        }
        assert(components::labels_components(
            labels,
            components::triangle_edge(marks_of(start, rows@), order as int),
        ));
    }

    /// Simplify one block whose live coordinates are `rows`.
    pub fn simplify_block(&mut self, block: usize, rows: &Vec<usize>, feasibility: Real) -> (outcome:
        Outcome)
        requires
            old(self).wf(),
            blocks_wf(*old(self)),
            active(*old(self), block),
            rows@ == live(*old(self), block),
            shaped(old(self).cones@[block as int], rows@.len()),
            old(self).revision + 2 * rows@.len() + 1 <= usize::MAX,
            old(self).cones@.len() + rows@.len() < usize::MAX,
        ensures
            final(self).wf(),
            blocks_wf(*final(self)),
            stepped(*final(self), *old(self), block, rows@, feasibility, outcome),
    {
        let ghost start = *self;
        proof {
            let listed = self.cone_rows@[block as int]@;
            assert forall|k: int| 0 <= k < listed.len() implies (#[trigger] listed[k])
                < self.rows@.len() by {
                assert(self.cone_rows@[block as int]@[k] < self.rows@.len());
            }
            live_rows_are_listed(self.rows@, listed, block);
            assert(cones::coordinates(*self, rows@));
        }
        match self.cones[block] {
            Cone::Zero(_) => {
                self.linearise(rows, true);
                Outcome::Settled
            },
            Cone::Nonnegative(_) => {
                self.linearise(rows, false);
                Outcome::Settled
            },
            Cone::SecondOrder(_) => {
                let head: usize = rows[0];
                if self.is_constant(head) && self.cone_rhs(head).less(feasibility.neg()) {
                    return Outcome::Separated { head };
                }
                if self.zero_coordinate(head) {
                    self.take_soc_face(rows);
                    return Outcome::Settled;
                }
                let kept = self.trim_block(block, rows, 1, false);
                let ghost mid = *self;
                let ghost cone = Cone::SecondOrder(kept@.len() as usize);
                assert(kept@[0] == head);
                if kept.len() == 1 {
                    assert(kept@ =~= seq![head]);
                    self.linearise(&kept, false);
                    assert(cones::linearised(*self, mid, seq![head], false));
                    assert(trimmed(mid, start, block, rows@, 1, cone));
                    assert(soc_stepped(
                        *self,
                        start,
                        block,
                        rows@,
                        feasibility,
                        Outcome::Settled,
                    ));
                    Outcome::Settled
                } else if kept.len() == 2 {
                    let tail: usize = kept[1];
                    assert(soc_stepped(
                        *self,
                        start,
                        block,
                        rows@,
                        feasibility,
                        (Outcome::Pair { head, tail }),
                    ));
                    Outcome::Pair { head, tail }
                } else {
                    assert(soc_stepped(
                        *self,
                        start,
                        block,
                        rows@,
                        feasibility,
                        Outcome::Settled,
                    ));
                    Outcome::Settled
                }
            },
            Cone::RotatedSecondOrder(_) => {
                let kept = self.trim_block(block, rows, 2, true);
                let ghost mid = *self;
                let ghost cone = Cone::RotatedSecondOrder(kept@.len() as usize);
                if kept.len() == 2 {
                    self.linearise(&kept, false);
                    assert(cones::linearised(*self, mid, kept@, false));
                    assert(trimmed(mid, start, block, rows@, 2, cone));
                }
                assert(stepped(*self, start, block, rows@, feasibility, Outcome::Settled));
                Outcome::Settled
            },
            Cone::PositiveSemidefinite { order } => {
                if self.zero_diagonal(rows, order) {
                    self.take_psd_face(rows, order);
                } else {
                    self.split_psd(block, rows, order);
                }
                assert(stepped(*self, start, block, rows@, feasibility, Outcome::Settled));
                Outcome::Settled
            },
            _ => Outcome::Settled,
        }
    }

    fn zero_diagonal(&self, rows: &Vec<usize>, order: usize) -> (b: bool)
        requires
            self.wf(),
            cones::coordinates(*self, rows@),
            rows@.len() == cone::triangle(order as int),
        ensures
            b == forall|j: int|
                0 <= j < order ==> cones::zero_at(
                    *self,
                    rows@[#[trigger] semidefinite::coordinate(j, j)] as int,
                ),
    {
        let mut j: usize = 0;
        while j < order
            invariant
                j <= order,
                self.wf(),
                cones::coordinates(*self, rows@),
                rows@.len() == cone::triangle(order as int),
                forall|i: int|
                    0 <= i < j ==> cones::zero_at(
                        *self,
                        rows@[#[trigger] semidefinite::coordinate(i, i)] as int,
                    ),
            decreases order - j,
        {
            proof {
                cone::coordinates_are_distinct(
                    j as int,
                    j as int,
                    j as int,
                    j as int,
                    order as int,
                );
            }
            let k: usize = semidefinite::packed_index(j, j, rows.len());
            assert(rows@[semidefinite::coordinate(j as int, j as int)] == rows@[k as int]);
            if !self.zero_coordinate(rows[k]) {
                return false;
            }
            j = j + 1;
        }
        true
    }
}

fn copy_from(list: &Vec<usize>, from: usize) -> (copy: Vec<usize>)
    requires
        from <= list@.len(),
    ensures
        copy@ == list@.skip(from as int),
{
    let mut copy: Vec<usize> = Vec::new();
    let mut k: usize = from;
    while k < list.len()
        invariant
            from <= k <= list@.len(),
            copy@ == list@.skip(from as int).take(k - from),
        decreases list@.len() - k,
    {
        copy.push(list[k]);
        k = k + 1;
        assert(copy@ =~= list@.skip(from as int).take(k - from));
    }
    assert(list@.skip(from as int).take(k - from) =~= list@.skip(from as int));
    copy
}

fn copy_list(list: &Vec<usize>) -> (copy: Vec<usize>)
    ensures
        copy@ == list@,
{
    let mut copy: Vec<usize> = Vec::new();
    let mut k: usize = 0;
    while k < list.len()
        invariant
            k <= list@.len(),
            copy@ == list@.take(k as int),
        decreases list@.len() - k,
    {
        copy.push(list[k]);
        k = k + 1;
        assert(copy@ =~= list@.take(k as int));
    }
    assert(list@.take(k as int) =~= list@);
    copy
}

} // verus!
