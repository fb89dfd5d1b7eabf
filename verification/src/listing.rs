//! The entries of a row or a column of a model.

use crate::linked::{self, Entries};
use crate::merge;
use crate::model::Model;
use crate::number::Real;
use vstd::prelude::*;

verus! {

/// The entries of one line of a matrix, in order.
pub open spec fn line(matrix: Map<(int, int), Real>, axis: bool, i: int) -> Seq<(usize, Real)> {
    choose|s: Seq<(usize, Real)>| linked::lists_line(s, matrix, axis, i)
}

/// What lists a line is the line.
pub proof fn line_is(
    entries: Seq<(usize, Real)>,
    matrix: Map<(int, int), Real>,
    axis: bool,
    i: int,
)
    requires
        linked::lists_line(entries, matrix, axis, i),
    ensures
        line(matrix, axis, i) == entries,
        linked::lists_line(line(matrix, axis, i), matrix, axis, i),
{
    linked::listing_is_unique(entries, line(matrix, axis, i), matrix, axis, i);
}

impl Model {
    /// The entries of a row.
    pub fn row_entries(&self, i: usize) -> (entries: Entries)
        requires
            self.wf(),
            i < self.rows@.len(),
        ensures
            entries@ == line(self.a@, false, i as int),
            linked::lists_line(entries@, self.a@, false, i as int),
            linked::sorted_entries(entries@, self.a.column_count()),
            merge::increasing(entries@),
            forall|k: int|
                0 <= k < entries@.len() ==> (#[trigger] entries@[k]).0 < self.bounds@.len(),
    {
        let entries = self.a.row(i).to_vec();
        proof {
            line_is(entries@, self.a@, false, i as int);
            self.a.stored_positions();
            assert forall|k: int| 0 <= k < entries@.len() implies (#[trigger] entries@[k]).0
                < self.a.column_count() && !entries@[k].1.zero() by {
                assert(self.a@.contains_key(linked::place(false, i as int, entries@[k].0 as int)));
                assert(self.a@.contains_key((i as int, entries@[k].0 as int)));
            }
        }
        entries
    }

    /// The entries of a column.
    pub fn column_entries(&self, j: usize) -> (entries: Entries)
        requires
            self.wf(),
            j < self.bounds@.len(),
        ensures
            entries@ == line(self.a@, true, j as int),
            linked::lists_line(entries@, self.a@, true, j as int),
            linked::sorted_entries(entries@, self.a.row_count()),
            merge::increasing(entries@),
            forall|k: int|
                0 <= k < entries@.len() ==> (#[trigger] entries@[k]).0 < self.rows@.len(),
    {
        let entries = self.a.column(j).to_vec();
        proof {
            line_is(entries@, self.a@, true, j as int);
            self.a.stored_positions();
            assert forall|k: int| 0 <= k < entries@.len() implies (#[trigger] entries@[k]).0
                < self.a.row_count() && !entries@[k].1.zero() by {
                assert(self.a@.contains_key(linked::place(true, j as int, entries@[k].0 as int)));
                assert(self.a@.contains_key((entries@[k].0 as int, j as int)));
            }
        }
        entries
    }
}

} // verus!
