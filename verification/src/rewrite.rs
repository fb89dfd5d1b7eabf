//! Replacing rows one after another.

use crate::assembly;
use crate::batch::{self, RowUpdate};
use crate::bounds::RowDomain;
use crate::linked::{self, Entries, NONE};
use crate::model::{self, Model};
use crate::number::Real;
use vstd::prelude::*;

verus! {

/// One row of a model is replaced: coefficients, domain, and the queues of the
/// rules that may now apply.
pub open spec fn row_step(
    before: Model,
    after: Model,
    row: usize,
    entries: Seq<(usize, Real)>,
    domain: RowDomain,
) -> bool {
    &&& linked::row_replaced(after.a@, before.a@, row as int, entries)
    &&& after.a.row_count() == before.a.row_count()
    &&& after.a.column_count() == before.a.column_count()
    &&& after.rows@ == before.rows@.update(row as int, domain)
    &&& after.bounds@ == before.bounds@
    &&& after.alive@ == before.alive@
    &&& after.cached@ == before.cached@.update(row as int, false)
    &&& after.changed_cones@ == model::cone_noted(before.changed_cones@, domain)
    &&& after.revision == before.revision + 1
    &&& after.cones@ == before.cones@
    &&& after.cone_rows@ == before.cone_rows@
    &&& after.tape@ == before.tape@
    &&& exists|saved: Seq<(usize, Real)>|
        linked::lists_line(saved, before.a@, false, row as int) && after.queues@
            == model::row_noted(
            model::columns_noted(
                #[trigger] model::columns_noted(before.queues@, saved, before.alive@, after.a@),
                entries,
                before.alive@,
                after.a@,
            ),
            row,
            domain,
            after.a@,
        )
}

/// A model after the first updates in turn.
pub open spec fn rewritten(
    before: Model,
    after: Model,
    updates: Seq<RowUpdate>,
    n: nat,
) -> bool
    decreases n,
{
    if n == 0 {
        before == after
    } else {
        exists|middle: Model|
            rewritten(before, middle, updates, (n - 1) as nat) && #[trigger] row_step(
                middle,
                after,
                updates[n - 1].0,
                updates[n - 1].1@,
                updates[n - 1].2,
            )
    }
}

/// A line outside a replaced row is listed as before.
pub proof fn line_untouched(
    new: Map<(int, int), Real>,
    old: Map<(int, int), Real>,
    row: int,
    i: int,
    entries: Seq<(usize, Real)>,
)
    requires
        linked::same_outside_row(new, old, row),
        i != row,
        linked::lists_line(entries, old, false, i),
    ensures
        linked::lists_line(entries, new, false, i),
{
    assert forall|a: int| 0 <= a < entries.len() implies {
        &&& new.contains_key(linked::place(false, i, (#[trigger] entries[a]).0 as int))
        &&& new[linked::place(false, i, entries[a].0 as int)] == entries[a].1
    } by {
        assert(old.contains_key(linked::place(false, i, entries[a].0 as int)));
        assert(old.contains_key((i, entries[a].0 as int)));
        assert(new.contains_key((i, entries[a].0 as int)));
    }
    assert forall|k: int| #[trigger] new.contains_key(linked::place(false, i, k)) implies exists|
        a: int,
    | 0 <= a < entries.len() && (#[trigger] entries[a]).0 == k by {
        assert(new.contains_key((i, k)));
        assert(old.contains_key((i, k)));
        assert(old.contains_key(linked::place(false, i, k)));
    }
}

impl Model {
    /// Replace distinct rows in turn.
    pub fn replace_in_turn(&mut self, updates: &Vec<RowUpdate>)
        requires
            old(self).wf(),
            batch::applicable(updates@, old(self).rows@.len(), old(self).a.column_count()),
            old(self).a@.dom().len() + assembly::total_entries(batch::row_entries(updates@))
                <= NONE,
            old(self).revision + updates@.len() <= usize::MAX,
        ensures
            final(self).wf(),
            rewritten(*old(self), *final(self), updates@, updates@.len()),
            batch::updated_matrix(final(self).a@, old(self).a@, updates@),
            final(self).rows@ == batch::updated_domains(
                old(self).rows@,
                updates@,
                updates@.len(),
            ),
            final(self).a.row_count() == old(self).a.row_count(),
            final(self).a.column_count() == old(self).a.column_count(),
            final(self).bounds@ == old(self).bounds@,
            final(self).alive@ == old(self).alive@,
            final(self).tape@ == old(self).tape@,
            final(self).revision == old(self).revision + updates@.len(),
            final(self).a@.dom().len() <= old(self).a@.dom().len() + assembly::total_entries(
                batch::row_entries(updates@),
            ),
    {
        let ghost start = *self;
        let ghost all = batch::row_entries(updates@);
        let mut u: usize = 0;
        proof {
            assert(all.take(0) =~= Seq::<(usize, Entries)>::empty());
        }
        while u < updates.len()
            invariant
                u <= updates@.len(),
                start == *old(self),
                self.wf(),
                all == batch::row_entries(updates@),
                batch::applicable(updates@, start.rows@.len(), start.a.column_count()),
                start.a@.dom().len() + assembly::total_entries(all) <= NONE,
                start.revision + updates@.len() <= usize::MAX,
                rewritten(start, *self, updates@, u as nat),
                self.rows@ == batch::updated_domains(start.rows@, updates@, u as nat),
                self.rows@.len() == start.rows@.len(),
                self.a.row_count() == start.a.row_count(),
                self.a.column_count() == start.a.column_count(),
                self.bounds@ == start.bounds@,
                self.alive@ == start.alive@,
                self.tape@ == start.tape@,
                self.revision == start.revision + u,
                self.a@.dom().len() <= start.a@.dom().len() + assembly::total_entries(
                    all.take(u as int),
                ),
                forall|v: int|
                    0 <= v < u ==> linked::lists_line(
                        (#[trigger] updates@[v]).1@,
                        self.a@,
                        false,
                        updates@[v].0 as int,
                    ),
                forall|i: int, j: int|
                    !batch::names_row(updates@, u as int, i) ==> {
                        &&& (#[trigger] self.a@.contains_key((i, j)) <==> start.a@.contains_key(
                            (i, j),
                        ))
                        &&& self.a@.contains_key((i, j)) ==> self.a@[(i, j)] == start.a@[(i, j)]
                    },
            decreases updates@.len() - u,
        {
            let ghost before = *self;
            let row: usize = updates[u].0;
            assert(updates@[u as int].0 < start.rows@.len());
            proof {
                assert(all.take(u + 1).drop_last() =~= all.take(u as int));
                assert(all.take(u + 1).last().1@ == updates@[u as int].1@);
                prefix_total(all, u + 1);
            }
            let saved = self.replace_row(row, &updates[u].1, updates[u].2);
            proof {
                assert(row_step(before, *self, row, updates@[u as int].1@, updates@[u as int].2));
                assert forall|v: int| 0 <= v < u + 1 implies linked::lists_line(
                    (#[trigger] updates@[v]).1@,
                    self.a@,
                    false,
                    updates@[v].0 as int,
                ) by {
                    if v < u {
                        assert(updates@[v].0 != updates@[u as int].0);
                        line_untouched(
                            self.a@,
                            before.a@,
                            row as int,
                            updates@[v].0 as int,
                            updates@[v].1@,
                        );
                    }
                }
                assert forall|i: int, j: int|
                    !batch::names_row(updates@, u + 1, i) implies {
                    &&& (#[trigger] self.a@.contains_key((i, j)) <==> start.a@.contains_key(
                        (i, j),
                    ))
                    &&& self.a@.contains_key((i, j)) ==> self.a@[(i, j)] == start.a@[(i, j)]
                } by {
                    if batch::names_row(updates@, u as int, i) {
                        let w = choose|w: int| 0 <= w < u && (#[trigger] updates@[w]).0 == i;
                        assert(batch::names_row(updates@, u + 1, i));
                    }
                    if i == row {
                        assert(updates@[u as int].0 == i);
                        assert(batch::names_row(updates@, u + 1, i));
                    }
                    assert(before.a@.contains_key((i, j)) <==> start.a@.contains_key((i, j)));
                }
            }
            u = u + 1;
            proof {
                let n = u as nat;
                assert(rewritten(start, before, updates@, (n - 1) as nat));
                assert(row_step(
                    before,
                    *self,
                    updates@[n - 1].0,
                    updates@[n - 1].1@,
                    updates@[n - 1].2,
                ));
                assert(rewritten(start, *self, updates@, n));
            }
        }
        assert(all.take(u as int) =~= all);
    }
}

/// The first updates hold no more entries than all.
pub proof fn prefix_total(all: Seq<(usize, Entries)>, n: int)
    requires
        0 <= n <= all.len(),
    ensures
        assembly::total_entries(all.take(n)) <= assembly::total_entries(all),
    decreases all.len(),
{
    if n < all.len() {
        prefix_total(all.drop_last(), n);
        assert(all.drop_last().take(n) =~= all.take(n));
    } else {
        assert(all.take(n) =~= all);
    }
}

} // verus!
