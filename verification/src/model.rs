//! Mutable working model. Every mutation updates the sparse views, the locks,
//! the activity caches and the rule queues together.

use crate::bounds::{self, Bounds, Locks, RowDomain, Side};
use crate::cone::Cone;
use crate::linked::{self, Entries, LinkedMatrix, NONE};
use crate::number::{infinity, neg_infinity, Real};
use crate::queues::{self, Queues, Waiting, Worklist};
use crate::simplify;
use crate::tape;
pub use crate::tape::{Equation, Rule};
use vstd::prelude::*;

verus! {

/// A working problem: a sparse matrix with a domain per row and an interval per
/// column, the locks that rows put on columns, and the queues of waiting rules.
pub struct Model {
    pub a: LinkedMatrix,
    pub rows: Vec<RowDomain>,
    pub bounds: Vec<Bounds>,
    pub alive: Vec<bool>,
    pub locks: Vec<Locks>,
    pub queues: Queues,
    /// Whether the cached activity of a row still holds.
    pub cached: Vec<bool>,
    pub revision: usize,
    pub cones: Vec<Cone>,
    pub cone_rows: Vec<Vec<usize>>,
    pub changed_cones: Worklist,
    pub tape: Vec<Rule>,
}

/// The rows that stop variable `j` from moving in one direction.
pub open spec fn locking(
    a: Map<(int, int), Real>,
    rows: Seq<RowDomain>,
    j: int,
    up: bool,
) -> Set<int> {
    Set::new(|i: int| a.contains_key((i, j)) && bounds::stops(a[(i, j)], rows[i], up))
}

/// The locks of every column count the rows that stop it.
pub open spec fn locks_count(
    locks: Seq<Locks>,
    a: Map<(int, int), Real>,
    rows: Seq<RowDomain>,
) -> bool {
    forall|j: int|
        0 <= j < locks.len() ==> {
            &&& (#[trigger] locks[j]).up == locking(a, rows, j, true).len()
            &&& locks[j].down == locking(a, rows, j, false).len()
        }
}

/// Every entry has an index below a limit.
pub open spec fn in_range(entries: Seq<(usize, Real)>, limit: nat) -> bool {
    forall|k: int| 0 <= k < entries.len() ==> (#[trigger] entries[k]).0 < limit
}

/// One of the entries stops variable `j` under a row domain.
pub open spec fn presses(
    entries: Seq<(usize, Real)>,
    domain: RowDomain,
    j: int,
    up: bool,
) -> bool {
    exists|a: int|
        0 <= a < entries.len() && (#[trigger] entries[a]).0 == j && bounds::stops(
            entries[a].1,
            domain,
            up,
        )
}

pub open spec fn one_if(b: bool) -> int {
    if b {
        1
    } else {
        0
    }
}

/// The queues after the listed columns changed; columns no longer alive are skipped.
pub open spec fn columns_noted(
    waiting: Waiting,
    entries: Seq<(usize, Real)>,
    alive: Seq<bool>,
    a: Map<(int, int), Real>,
) -> Waiting
    decreases entries.len(),
{
    if entries.len() == 0 {
        waiting
    } else {
        let before = columns_noted(waiting, entries.drop_last(), alive, a);
        let j = entries.last().0;
        if alive[j as int] {
            before.column_changed(j, linked::line_items(a, true, j as int).len())
        } else {
            before
        }
    }
}

/// The queues after a row changed; a deleted row is not scheduled.
pub open spec fn row_noted(
    waiting: Waiting,
    row: usize,
    domain: RowDomain,
    a: Map<(int, int), Real>,
) -> Waiting {
    if domain is Deleted {
        waiting
    } else {
        waiting.row_changed(
            row,
            linked::line_items(a, false, row as int).len(),
            domain.is_equality(),
        )
    }
}

/// The changed cone blocks after a row with this domain changed.
pub open spec fn cone_noted(changed: Seq<usize>, domain: RowDomain) -> Seq<usize> {
    match domain {
        RowDomain::Cone { block, .. } => queues::scheduled(changed, block),
        _ => changed,
    }
}

/// Every stored position lies in one of the first `rows` rows.
pub open spec fn within_rows(matrix: Map<(int, int), Real>, rows: nat) -> bool {
    forall|i: int, j: int| #[trigger] matrix.contains_key((i, j)) ==> 0 <= i < rows
}

pub(crate) proof fn locking_is_finite(
    matrix: Map<(int, int), Real>,
    rows: Seq<RowDomain>,
    j: int,
    up: bool,
)
    requires
        within_rows(matrix, rows.len()),
    ensures
        locking(matrix, rows, j, up).finite(),
        locking(matrix, rows, j, up).len() <= rows.len(),
{
    let range = vstd::set_lib::set_int_range(0, rows.len() as int);
    vstd::set_lib::lemma_int_range(0, rows.len() as int);
    assert(locking(matrix, rows, j, up).subset_of(range));
    vstd::set_lib::lemma_len_subset(locking(matrix, rows, j, up), range);
}

/// Replacing one row moves the locks of a column by that row's own locks.
pub(crate) proof fn locking_of_replaced_row(
    m0: Map<(int, int), Real>,
    m1: Map<(int, int), Real>,
    rows: Seq<RowDomain>,
    row: int,
    domain: RowDomain,
    saved: Seq<(usize, Real)>,
    entries: Seq<(usize, Real)>,
    j: int,
    up: bool,
)
    requires
        within_rows(m0, rows.len()),
        0 <= row < rows.len(),
        linked::row_replaced(m1, m0, row, entries),
        linked::lists_line(saved, m0, false, row),
    ensures
        locking(m1, rows.update(row, domain), j, up).len() == locking(m0, rows, j, up).len()
            - one_if(presses(saved, rows[row], j, up)) + one_if(presses(entries, domain, j, up)),
        presses(saved, rows[row], j, up) ==> locking(m0, rows, j, up).len() > 0,
        locking(m1, rows.update(row, domain), j, up).len() <= rows.len(),
        within_rows(m1, rows.len()),
{
    let rows1 = rows.update(row, domain);
    let old = locking(m0, rows, j, up);
    let new = locking(m1, rows1, j, up);
    assert forall|i: int, k: int| #[trigger] m1.contains_key((i, k)) implies 0 <= i < rows.len() by {
        if i != row {
            assert(m0.contains_key((i, k)));
        }
    }
    locking_is_finite(m0, rows, j, up);
    locking_is_finite(m1, rows1, j, up);
    assert(old.remove(row) =~= new.remove(row)) by {
        assert forall|i: int| old.remove(row).contains(i) <==> new.remove(row).contains(i) by {
            if i != row {
                assert(m1.contains_key((i, j)) <==> m0.contains_key((i, j)));
            }
        }
    }
    pressed_row(m0, rows[row], saved, row, j, up);
    pressed_row(m1, domain, entries, row, j, up);
    assert(rows1[row] == domain);
    assert(old.contains(row) <==> presses(saved, rows[row], j, up));
    assert(new.contains(row) <==> presses(entries, domain, j, up));
    assert(old.remove(row).len() == old.len() - one_if(old.contains(row)));
    assert(new.remove(row).len() == new.len() - one_if(new.contains(row)));
}

/// Moving a row's locks from its old entries and domain to its new ones keeps
/// the count of every column.
pub(crate) fn move_locks(
    locks: &mut Vec<Locks>,
    saved: &Entries,
    before: RowDomain,
    entries: &Entries,
    domain: RowDomain,
    Ghost(m0): Ghost<Map<(int, int), Real>>,
    Ghost(m1): Ghost<Map<(int, int), Real>>,
    Ghost(rows): Ghost<Seq<RowDomain>>,
    Ghost(row): Ghost<int>,
)
    requires
        within_rows(m0, rows.len()),
        rows.len() < usize::MAX,
        0 <= row < rows.len(),
        rows[row] == before,
        linked::row_replaced(m1, m0, row, entries@),
        linked::lists_line(saved@, m0, false, row),
        locks_count(old(locks)@, m0, rows),
        forall|a: int| 0 <= a < entries@.len() ==> (#[trigger] entries@[a]).0 < old(locks)@.len(),
        forall|a: int| 0 <= a < saved@.len() ==> (#[trigger] saved@[a]).0 < old(locks)@.len(),
    ensures
        final(locks)@.len() == old(locks)@.len(),
        locks_count(final(locks)@, m1, rows.update(row, domain)),
        within_rows(m1, rows.len()),
{
    let ghost start = locks@;
    proof {
        locking_of_replaced_row(m0, m1, rows, row, domain, saved@, entries@, 0, true);
        assert forall|j: int| 0 <= j < locks@.len() implies {
            &&& presses(saved@, before, j, true) ==> (#[trigger] locks@[j]).up > 0
            &&& presses(saved@, before, j, false) ==> locks@[j].down > 0
        } by {
            locking_of_replaced_row(m0, m1, rows, row, domain, saved@, entries@, j, true);
            locking_of_replaced_row(m0, m1, rows, row, domain, saved@, entries@, j, false);
        }
    }
    unlock(locks, saved, before);
    let ghost middle = locks@;
    proof {
        assert forall|j: int| 0 <= j < locks@.len() implies {
            &&& presses(entries@, domain, j, true) ==> (#[trigger] locks@[j]).up < usize::MAX
            &&& presses(entries@, domain, j, false) ==> locks@[j].down < usize::MAX
        } by {
            locking_is_finite(m0, rows, j, true);
            locking_is_finite(m0, rows, j, false);
            assert(start[j].up <= rows.len());
        }
    }
    lock(locks, entries, domain);
    proof {
        assert forall|j: int| 0 <= j < locks@.len() implies {
            &&& (#[trigger] locks@[j]).up == locking(m1, rows.update(row, domain), j, true).len()
            &&& locks@[j].down == locking(m1, rows.update(row, domain), j, false).len()
        } by {
            locking_of_replaced_row(m0, m1, rows, row, domain, saved@, entries@, j, true);
            locking_of_replaced_row(m0, m1, rows, row, domain, saved@, entries@, j, false);
            assert(start[j].up == locking(m0, rows, j, true).len());
            assert(middle[j].up == start[j].up - one_if(presses(saved@, before, j, true)));
        }
    }
}

pub(crate) proof fn pressed_row(
    matrix: Map<(int, int), Real>,
    domain: RowDomain,
    entries: Seq<(usize, Real)>,
    row: int,
    j: int,
    up: bool,
)
    requires
        linked::lists_line(entries, matrix, false, row),
    ensures
        presses(entries, domain, j, up) <==> matrix.contains_key((row, j)) && bounds::stops(
            matrix[(row, j)],
            domain,
            up,
        ),
{
    assert(linked::place(false, row, j) == (row, j));
    if matrix.contains_key((row, j)) {
        assert(matrix.contains_key(linked::place(false, row, j)));
        let a = choose|a: int| 0 <= a < entries.len() && (#[trigger] entries[a]).0 == j;
        assert(entries[a].0 == j);
        assert(matrix[linked::place(false, row, entries[a].0 as int)] == entries[a].1);
    }
    if presses(entries, domain, j, up) {
        let a = choose|a: int|
            0 <= a < entries.len() && (#[trigger] entries[a]).0 == j && bounds::stops(
                entries[a].1,
                domain,
                up,
            );
        assert(matrix.contains_key(linked::place(false, row, entries[a].0 as int)));
    }
}

proof fn presses_grows(
    entries: Seq<(usize, Real)>,
    domain: RowDomain,
    n: int,
    j: int,
    up: bool,
)
    requires
        0 <= n < entries.len(),
    ensures
        presses(entries.take(n + 1), domain, j, up) <==> presses(entries.take(n), domain, j, up)
            || (entries[n].0 == j && bounds::stops(entries[n].1, domain, up)),
        presses(entries.take(n + 1), domain, j, up) ==> presses(entries, domain, j, up),
{
    let less = entries.take(n);
    let more = entries.take(n + 1);
    if presses(less, domain, j, up) {
        let a = choose|a: int|
            0 <= a < less.len() && (#[trigger] less[a]).0 == j && bounds::stops(
                less[a].1,
                domain,
                up,
            );
        assert(more[a] == less[a]);
    }
    if presses(more, domain, j, up) {
        let a = choose|a: int|
            0 <= a < more.len() && (#[trigger] more[a]).0 == j && bounds::stops(
                more[a].1,
                domain,
                up,
            );
        assert(entries[a] == more[a]);
        if a < n {
            assert(less[a] == more[a]);
        }
    }
    assert(more[n] == entries[n]);
}

/// Distinct columns press at most once each.
proof fn presses_once(
    entries: Seq<(usize, Real)>,
    domain: RowDomain,
    n: int,
    up: bool,
)
    requires
        0 <= n < entries.len(),
        forall|a: int, b: int|
            0 <= a < b < entries.len() ==> (#[trigger] entries[a]).0 < (#[trigger] entries[b]).0,
    ensures
        !presses(entries.take(n), domain, entries[n].0 as int, up),
{
    let less = entries.take(n);
    if presses(less, domain, entries[n].0 as int, up) {
        let a = choose|a: int|
            0 <= a < less.len() && (#[trigger] less[a]).0 == entries[n].0 && bounds::stops(
                less[a].1,
                domain,
                up,
            );
        assert(entries[a].0 < entries[n].0);
    }
}

/// Release the locks that a row with these entries puts on its columns.
fn unlock(locks: &mut Vec<Locks>, entries: &Entries, domain: RowDomain)
    requires
        forall|a: int| 0 <= a < entries@.len() ==> (#[trigger] entries@[a]).0 < old(locks)@.len(),
        forall|a: int, b: int|
            0 <= a < b < entries@.len() ==> (#[trigger] entries@[a]).0 < (#[trigger] entries@[b]).0,
        forall|j: int|
            0 <= j < old(locks)@.len() ==> {
                &&& presses(entries@, domain, j, true) ==> (#[trigger] old(locks)@[j]).up > 0
                &&& presses(entries@, domain, j, false) ==> old(locks)@[j].down > 0
            },
    ensures
        final(locks)@.len() == old(locks)@.len(),
        forall|j: int|
            0 <= j < final(locks)@.len() ==> {
                &&& (#[trigger] final(locks)@[j]).up == old(locks)@[j].up - one_if(
                    presses(entries@, domain, j, true),
                )
                &&& final(locks)@[j].down == old(locks)@[j].down - one_if(
                    presses(entries@, domain, j, false),
                )
            },
{
    let mut at: usize = 0;
    while at < entries.len()
        invariant
            at <= entries@.len(),
            locks@.len() == old(locks)@.len(),
            forall|a: int| 0 <= a < entries@.len() ==> (#[trigger] entries@[a]).0 < locks@.len(),
            forall|a: int, b: int|
                0 <= a < b < entries@.len() ==> (#[trigger] entries@[a]).0 < (
                #[trigger] entries@[b]).0,
            forall|j: int|
                0 <= j < old(locks)@.len() ==> {
                    &&& presses(entries@, domain, j, true) ==> (#[trigger] old(locks)@[j]).up > 0
                    &&& presses(entries@, domain, j, false) ==> old(locks)@[j].down > 0
                },
            forall|j: int|
                0 <= j < locks@.len() ==> {
                    &&& (#[trigger] locks@[j]).up == old(locks)@[j].up - one_if(
                        presses(entries@.take(at as int), domain, j, true),
                    )
                    &&& locks@[j].down == old(locks)@[j].down - one_if(
                        presses(entries@.take(at as int), domain, j, false),
                    )
                },
        decreases entries@.len() - at,
    {
        let (j, coefficient): (usize, Real) = entries[at];
        let ghost before = locks@;
        proof {
            presses_once(entries@, domain, at as int, true);
            presses_once(entries@, domain, at as int, false);
            presses_grows(entries@, domain, at as int, j as int, true);
            presses_grows(entries@, domain, at as int, j as int, false);
            assert(old(locks)@[j as int] == old(locks)@[j as int]);
        }
        let mut lock = locks[j];
        lock.remove(Locks::contribution(coefficient, domain));
        locks.set(j, lock);
        proof {
            assert forall|k: int| 0 <= k < locks@.len() implies {
                &&& (#[trigger] locks@[k]).up == old(locks)@[k].up - one_if(
                    presses(entries@.take(at + 1), domain, k, true),
                )
                &&& locks@[k].down == old(locks)@[k].down - one_if(
                    presses(entries@.take(at + 1), domain, k, false),
                )
            } by {
                presses_grows(entries@, domain, at as int, k, true);
                presses_grows(entries@, domain, at as int, k, false);
                assert(before[k].up == old(locks)@[k].up - one_if(
                    presses(entries@.take(at as int), domain, k, true),
                ));
            }
        }
        at = at + 1;
    }
    assert(entries@.take(at as int) =~= entries@);
}

/// Put the locks of a row with these entries on its columns.
pub(crate) fn lock(locks: &mut Vec<Locks>, entries: &Entries, domain: RowDomain)
    requires
        forall|a: int| 0 <= a < entries@.len() ==> (#[trigger] entries@[a]).0 < old(locks)@.len(),
        forall|a: int, b: int|
            0 <= a < b < entries@.len() ==> (#[trigger] entries@[a]).0 < (#[trigger] entries@[b]).0,
        forall|j: int|
            0 <= j < old(locks)@.len() ==> {
                &&& presses(entries@, domain, j, true) ==> (#[trigger] old(locks)@[j]).up
                    < usize::MAX
                &&& presses(entries@, domain, j, false) ==> old(locks)@[j].down < usize::MAX
            },
    ensures
        final(locks)@.len() == old(locks)@.len(),
        forall|j: int|
            0 <= j < final(locks)@.len() ==> {
                &&& (#[trigger] final(locks)@[j]).up == old(locks)@[j].up + one_if(
                    presses(entries@, domain, j, true),
                )
                &&& final(locks)@[j].down == old(locks)@[j].down + one_if(
                    presses(entries@, domain, j, false),
                )
            },
{
    let mut at: usize = 0;
    while at < entries.len()
        invariant
            at <= entries@.len(),
            locks@.len() == old(locks)@.len(),
            forall|a: int| 0 <= a < entries@.len() ==> (#[trigger] entries@[a]).0 < locks@.len(),
            forall|a: int, b: int|
                0 <= a < b < entries@.len() ==> (#[trigger] entries@[a]).0 < (
                #[trigger] entries@[b]).0,
            forall|j: int|
                0 <= j < old(locks)@.len() ==> {
                    &&& presses(entries@, domain, j, true) ==> (#[trigger] old(locks)@[j]).up
                        < usize::MAX
                    &&& presses(entries@, domain, j, false) ==> old(locks)@[j].down < usize::MAX
                },
            forall|j: int|
                0 <= j < locks@.len() ==> {
                    &&& (#[trigger] locks@[j]).up == old(locks)@[j].up + one_if(
                        presses(entries@.take(at as int), domain, j, true),
                    )
                    &&& locks@[j].down == old(locks)@[j].down + one_if(
                        presses(entries@.take(at as int), domain, j, false),
                    )
                },
        decreases entries@.len() - at,
    {
        let (j, coefficient): (usize, Real) = entries[at];
        let ghost before = locks@;
        proof {
            presses_once(entries@, domain, at as int, true);
            presses_once(entries@, domain, at as int, false);
            presses_grows(entries@, domain, at as int, j as int, true);
            presses_grows(entries@, domain, at as int, j as int, false);
            assert(old(locks)@[j as int] == old(locks)@[j as int]);
        }
        let mut lock = locks[j];
        lock.add(Locks::contribution(coefficient, domain));
        locks.set(j, lock);
        proof {
            assert forall|k: int| 0 <= k < locks@.len() implies {
                &&& (#[trigger] locks@[k]).up == old(locks)@[k].up + one_if(
                    presses(entries@.take(at + 1), domain, k, true),
                )
                &&& locks@[k].down == old(locks)@[k].down + one_if(
                    presses(entries@.take(at + 1), domain, k, false),
                )
            } by {
                presses_grows(entries@, domain, at as int, k, true);
                presses_grows(entries@, domain, at as int, k, false);
                assert(before[k].up == old(locks)@[k].up + one_if(
                    presses(entries@.take(at as int), domain, k, true),
                ));
            }
        }
        at = at + 1;
    }
    assert(entries@.take(at as int) =~= entries@);
}

impl Model {
    /// The parts of the model fit together, and the locks count what they claim to.
    pub open spec fn wf(&self) -> bool {
        &&& self.a.wf()
        &&& self.rows@.len() == self.a.row_count()
        &&& self.cached@.len() == self.rows@.len()
        &&& self.bounds@.len() == self.a.column_count()
        &&& self.alive@.len() == self.a.column_count()
        &&& self.locks@.len() == self.a.column_count()
        &&& self.queues.wf()
        &&& self.queues.changed_activities.rows() == self.rows@.len()
        &&& self.changed_cones.wf()
        &&& locks_count(self.locks@, self.a@, self.rows@)
        &&& forall|i: int|
            0 <= i < self.rows@.len() ==> ((#[trigger] self.rows@[i]) matches RowDomain::Cone {
                block,
                ..
            } ==> block < usize::MAX)
        &&& forall|i: int, j: int| #[trigger]
            self.a@.contains_key((i, j)) ==> !(self.rows@[i] is Deleted)
        &&& simplify::blocks_wf(*self)
        &&& tape::rules_fit(self.tape@, self.bounds@.len(), self.rows@.len())
    }

    /// Everything but the queues, the caches and the tape is as it was.
    pub open spec fn same_problem(&self, other: &Model) -> bool {
        &&& self.a@ == other.a@
        &&& self.rows@ == other.rows@
        &&& self.bounds@ == other.bounds@
        &&& self.alive@ == other.alive@
        &&& self.locks@ == other.locks@
    }

    /// Schedule the rules that a changed column may enable.
    pub(crate) fn note_columns(&mut self, entries: &Entries)
        requires
            old(self).wf(),
            forall|a: int|
                0 <= a < entries@.len() ==> (#[trigger] entries@[a]).0 < old(self).a.column_count(),
        ensures
            final(self).queues.wf(),
            final(self).queues.changed_activities.rows() == old(
                self,
            ).queues.changed_activities.rows(),
            final(self).queues@ == columns_noted(
                old(self).queues@,
                entries@,
                old(self).alive@,
                old(self).a@,
            ),
            *final(self) == (Model { queues: final(self).queues, ..*old(self) }),
    {
        let mut at: usize = 0;
        proof {
            assert(entries@.take(0) =~= Seq::<(usize, Real)>::empty());
        }
        while at < entries.len()
            invariant
                at <= entries@.len(),
                old(self).wf(),
                *self == (Model { queues: self.queues, ..*old(self) }),
                forall|a: int|
                    0 <= a < entries@.len() ==> (#[trigger] entries@[a]).0 < self.a.column_count(),
                self.queues.wf(),
                self.queues.changed_activities.rows() == old(self).queues.changed_activities.rows(),
                self.queues@ == columns_noted(
                    old(self).queues@,
                    entries@.take(at as int),
                    old(self).alive@,
                    old(self).a@,
                ),
            decreases entries@.len() - at,
        {
            let j: usize = entries[at].0;
            proof {
                self.a.stored_positions();
                assert(entries@.take(at + 1).drop_last() =~= entries@.take(at as int));
                assert(entries@.take(at + 1).last() == entries@[at as int]);
            }
            if self.alive[j] {
                let size: usize = self.a.column(j).len();
                self.queues.column_changed(j, size);
            }
            at = at + 1;
        }
        assert(entries@.take(at as int) =~= entries@);
    }

    /// Invalidate a row's activity and schedule the rules it may enable.
    pub(crate) fn changed_row(&mut self, row: usize)
        requires
            old(self).wf(),
            row < old(self).rows@.len(),
        ensures
            final(self).wf(),
            final(self).same_problem(old(self)),
            final(self).queues@ == row_noted(
                old(self).queues@,
                row,
                old(self).rows@[row as int],
                old(self).a@,
            ),
            final(self).cached@ == old(self).cached@.update(row as int, false),
            final(self).changed_cones@ == cone_noted(
                old(self).changed_cones@,
                old(self).rows@[row as int],
            ),
            final(self).revision == old(self).revision,
            final(self).cones@ == old(self).cones@,
            final(self).cone_rows@ == old(self).cone_rows@,
            final(self).tape@ == old(self).tape@,
            final(self).a == old(self).a,
    {
        let domain = self.rows[row];
        proof {
            self.a.stored_positions();
        }
        match domain {
            RowDomain::Cone { block, .. } => {
                self.changed_cones.push(block);
            },
            _ => {},
        }
        self.cached.set(row, false);
        match domain {
            RowDomain::Deleted => {},
            _ => {
                let size: usize = self.a.row(row).len();
                self.queues.row_changed(row, size, domain.equality());
            },
        }
    }

    /// Replace a row's entries and domain.
    pub fn replace_row(&mut self, row: usize, entries: &Entries, domain: RowDomain) -> (saved:
        Entries)
        requires
            old(self).wf(),
            row < old(self).rows@.len(),
            linked::sorted_entries(entries@, old(self).a.column_count()),
            old(self).a@.dom().len() + entries@.len() <= NONE,
            domain is Deleted ==> entries@.len() == 0,
            domain matches RowDomain::Cone { block, .. } ==> block < usize::MAX,
            old(self).revision < usize::MAX,
        ensures
            final(self).wf(),
            linked::lists_line(saved@, old(self).a@, false, row as int),
            linked::row_replaced(final(self).a@, old(self).a@, row as int, entries@),
            final(self).a.row_count() == old(self).a.row_count(),
            final(self).a.column_count() == old(self).a.column_count(),
            final(self).rows@ == old(self).rows@.update(row as int, domain),
            final(self).bounds@ == old(self).bounds@,
            final(self).alive@ == old(self).alive@,
            final(self).cached@ == old(self).cached@.update(row as int, false),
            final(self).queues@ == row_noted(
                columns_noted(
                    columns_noted(old(self).queues@, saved@, old(self).alive@, final(self).a@),
                    entries@,
                    old(self).alive@,
                    final(self).a@,
                ),
                row,
                domain,
                final(self).a@,
            ),
            final(self).changed_cones@ == cone_noted(old(self).changed_cones@, domain),
            final(self).revision == old(self).revision + 1,
            final(self).cones@ == old(self).cones@,
            final(self).cone_rows@ == old(self).cone_rows@,
            final(self).tape@ == old(self).tape@,
            final(self).a@.dom().len() <= old(self).a@.dom().len() + entries@.len(),
    {
        let ghost start = *self;
        let ghost i = row as int;
        let saved = self.a.replace_row(row, entries);
        proof {
            start.a.stored_positions();
            assert forall|a: int| 0 <= a < saved@.len() implies (#[trigger] saved@[a]).0
                < self.locks@.len() by {
                assert(start.a@.contains_key(linked::place(false, i, saved@[a].0 as int)));
                assert(start.a@.contains_key((i, saved@[a].0 as int)));
            }
        }
        let before = self.rows[row];
        move_locks(
            &mut self.locks,
            &saved,
            before,
            entries,
            domain,
            Ghost(start.a@),
            Ghost(self.a@),
            Ghost(start.rows@),
            Ghost(i),
        );
        self.rows.set(row, domain);
        proof {
            assert forall|r: int, j: int| #[trigger] self.a@.contains_key((r, j)) implies !(
            self.rows@[r] is Deleted) by {
                if r == i {
                    assert(self.a@.contains_key(linked::place(false, i, j)));
                    assert(entries@.len() > 0);
                } else {
                    assert(start.a@.contains_key((r, j)));
                }
            }
        }
        self.note_columns(&saved);
        self.note_columns(entries);
        self.changed_row(row);
        self.revision = self.revision + 1;
        saved
    }
}

impl Model {
    /// The entries and sides of a linear row.
    pub fn equation(&self, row: usize) -> (equation: Option<Equation>)
        requires
            self.wf(),
            row < self.rows@.len(),
        ensures
            match self.rows@[row as int] {
                RowDomain::Linear(b) => {
                    &&& equation is Some
                    &&& equation->0.row == row
                    &&& equation->0.bounds == b
                    &&& linked::lists_line(equation->0.entries@, self.a@, false, row as int)
                },
                _ => equation is None,
            },
    {
        match self.rows[row] {
            RowDomain::Linear(bounds) => {
                let entries = self.a.row(row).to_vec();
                Some(Equation { row, entries, bounds })
            },
            _ => None,
        }
    }

    /// Delete a row's entries and its domain without a record.
    pub fn clear_row(&mut self, row: usize)
        requires
            old(self).wf(),
            row < old(self).rows@.len(),
            old(self).a@.dom().len() <= NONE,
            old(self).revision < usize::MAX,
        ensures
            final(self).wf(),
            linked::row_replaced(
                final(self).a@,
                old(self).a@,
                row as int,
                Seq::<(usize, Real)>::empty(),
            ),
            final(self).rows@ == old(self).rows@.update(row as int, RowDomain::Deleted),
            final(self).bounds@ == old(self).bounds@,
            final(self).alive@ == old(self).alive@,
            final(self).revision == old(self).revision + 1,
            final(self).tape@ == old(self).tape@,
            final(self).a.row_count() == old(self).a.row_count(),
            final(self).a.column_count() == old(self).a.column_count(),
            final(self).a@.dom().len() <= old(self).a@.dom().len(),
            final(self).changed_cones@ == old(self).changed_cones@,
            final(self).cones@ == old(self).cones@,
            final(self).cone_rows@ == old(self).cone_rows@,
            forall|saved: Seq<(usize, Real)>|
                linked::lists_line(saved, old(self).a@, false, row as int) ==> final(self).queues@
                    == #[trigger] columns_noted(
                    old(self).queues@,
                    saved,
                    old(self).alive@,
                    final(self).a@,
                ),
    {
        let none: Entries = Vec::new();
        let saved = self.replace_row(row, &none, RowDomain::Deleted);
        proof {
            assert(none@ =~= Seq::<(usize, Real)>::empty());
            assert forall|other: Seq<(usize, Real)>|
                linked::lists_line(other, old(self).a@, false, row as int) implies self.queues@
                == #[trigger] columns_noted(old(self).queues@, other, old(self).alive@, self.a@) by {
                linked::listing_is_unique(other, saved@, old(self).a@, false, row as int);
            }
        }
    }

    /// Delete a linear row that constrains nothing, and record it.
    pub fn delete_row(&mut self, row: usize)
        requires
            old(self).wf(),
            row < old(self).rows@.len(),
            old(self).rows@[row as int] is Linear,
            old(self).a@.dom().len() <= NONE,
            old(self).revision < usize::MAX,
        ensures
            final(self).wf(),
            linked::row_replaced(
                final(self).a@,
                old(self).a@,
                row as int,
                Seq::<(usize, Real)>::empty(),
            ),
            final(self).rows@ == old(self).rows@.update(row as int, RowDomain::Deleted),
            final(self).bounds@ == old(self).bounds@,
            final(self).alive@ == old(self).alive@,
            final(self).revision == old(self).revision + 1,
            final(self).tape@ == old(self).tape@.push(Rule::DeletedRow(row)),
    {
        self.clear_row(row);
        self.tape.push(Rule::DeletedRow(row));
    }

    /// A domain change affects locks and eligibility, but not matrix coefficients.
    pub fn replace_domain(&mut self, row: usize, domain: RowDomain)
        requires
            old(self).wf(),
            row < old(self).rows@.len(),
            !(domain is Deleted),
            domain matches RowDomain::Cone { block, .. } ==> block < usize::MAX,
            old(self).revision < usize::MAX,
        ensures
            final(self).wf(),
            final(self).a == old(self).a,
            final(self).rows@ == old(self).rows@.update(row as int, domain),
            final(self).bounds@ == old(self).bounds@,
            final(self).alive@ == old(self).alive@,
            final(self).cached@ == old(self).cached@.update(row as int, false),
            final(self).revision == old(self).revision + 1,
            final(self).tape@ == old(self).tape@,
            final(self).cones@ == old(self).cones@,
            final(self).cone_rows@ == old(self).cone_rows@,
            final(self).changed_cones@ == cone_noted(old(self).changed_cones@, domain),
            forall|entries: Seq<(usize, Real)>|
                linked::lists_line(entries, old(self).a@, false, row as int) ==> final(self).queues@
                    == row_noted(
                    #[trigger] columns_noted(
                        old(self).queues@,
                        entries,
                        old(self).alive@,
                        old(self).a@,
                    ),
                    row,
                    domain,
                    old(self).a@,
                ),
    {
        let ghost start = *self;
        let ghost i = row as int;
        let entries = self.a.row(row).to_vec();
        proof {
            start.a.stored_positions();
            assert forall|a: int| 0 <= a < entries@.len() implies (#[trigger] entries@[a]).0
                < self.locks@.len() by {
                assert(start.a@.contains_key(linked::place(false, i, entries@[a].0 as int)));
                assert(start.a@.contains_key((i, entries@[a].0 as int)));
            }
        }
        let before = self.rows[row];
        move_locks(
            &mut self.locks,
            &entries,
            before,
            &entries,
            domain,
            Ghost(start.a@),
            Ghost(start.a@),
            Ghost(start.rows@),
            Ghost(i),
        );
        self.rows.set(row, domain);
        self.note_columns(&entries);
        self.changed_row(row);
        self.revision = self.revision + 1;
        proof {
            assert forall|other: Seq<(usize, Real)>|
                linked::lists_line(other, start.a@, false, i) implies self.queues@ == row_noted(
                #[trigger] columns_noted(start.queues@, other, start.alive@, start.a@),
                row,
                domain,
                start.a@,
            ) by {
                linked::listing_is_unique(other, entries@, start.a@, false, i);
            }
        }
    }

    /// Row sides change locks and eligibility, but not matrix coefficients.
    pub fn replace_row_bounds(&mut self, row: usize, bounds: Bounds)
        requires
            old(self).wf(),
            row < old(self).rows@.len(),
            old(self).rows@[row as int] is Linear,
            old(self).revision < usize::MAX,
        ensures
            final(self).wf(),
            final(self).a == old(self).a,
            final(self).rows@ == old(self).rows@.update(row as int, RowDomain::Linear(bounds)),
            final(self).bounds@ == old(self).bounds@,
            final(self).alive@ == old(self).alive@,
            final(self).cached@ == old(self).cached@.update(row as int, false),
            final(self).revision == old(self).revision + 1,
            final(self).tape@ == old(self).tape@,
            final(self).changed_cones@ == old(self).changed_cones@,
            forall|entries: Seq<(usize, Real)>|
                linked::lists_line(entries, old(self).a@, false, row as int) ==> final(self).queues@
                    == row_noted(
                    #[trigger] columns_noted(
                        old(self).queues@,
                        entries,
                        old(self).alive@,
                        old(self).a@,
                    ),
                    row,
                    RowDomain::Linear(bounds),
                    old(self).a@,
                ),
    {
        self.replace_domain(row, RowDomain::Linear(bounds));
    }

    /// Turn a row into the equation at one of its sides. The caller knows that any
    /// feasible point can move onto that side without loss.
    pub fn restrict_row(&mut self, row: usize, side: Side)
        requires
            old(self).wf(),
            row < old(self).rows@.len(),
            old(self).rows@[row as int] is Linear,
            old(self).revision < usize::MAX,
        ensures
            final(self).wf(),
            final(self).a == old(self).a,
            ({
                let b = old(self).rows@[row as int]->Linear_0;
                let value = match side {
                    Side::Lower => b.lower,
                    Side::Upper => b.upper,
                };
                let domain = RowDomain::Linear(Bounds { lower: value, upper: value });
                &&& final(self).rows@ == old(self).rows@.update(row as int, domain)
                &&& forall|entries: Seq<(usize, Real)>|
                    linked::lists_line(entries, old(self).a@, false, row as int) ==> final(self).queues@
                        == row_noted(
                        #[trigger] columns_noted(
                            old(self).queues@,
                            entries,
                            old(self).alive@,
                            old(self).a@,
                        ),
                        row,
                        domain,
                        old(self).a@,
                    )
            }),
            final(self).bounds@ == old(self).bounds@,
            final(self).alive@ == old(self).alive@,
            final(self).cached@ == old(self).cached@.update(row as int, false),
            final(self).revision == old(self).revision + 1,
            final(self).tape@ == old(self).tape@,
            final(self).changed_cones@ == old(self).changed_cones@,
    {
        if let RowDomain::Linear(b) = self.rows[row] {
            let value = side.value(b);
            self.replace_row_bounds(row, Bounds::fixed(value));
        }
    }

    /// Change one side of a row after a parallel row proved it, and record the source.
    pub fn tighten_row(&mut self, row: usize, source: usize, ratio: Real, side: Side, value: Real)
        requires
            old(self).wf(),
            row < old(self).rows@.len(),
            source < old(self).rows@.len(),
            old(self).rows@[row as int] is Linear,
            old(self).revision < usize::MAX,
        ensures
            final(self).wf(),
            final(self).a == old(self).a,
            ({
                let b = old(self).rows@[row as int]->Linear_0;
                let tightened = match side {
                    Side::Lower => Bounds { lower: value, ..b },
                    Side::Upper => Bounds { upper: value, ..b },
                };
                final(self).rows@ == old(self).rows@.update(
                    row as int,
                    RowDomain::Linear(tightened),
                )
            }),
            final(self).bounds@ == old(self).bounds@,
            final(self).alive@ == old(self).alive@,
            final(self).revision == old(self).revision + 1,
            final(self).tape@ == old(self).tape@.push(
                Rule::TightenedRow { row, source, ratio, side },
            ),
    {
        let mut bounds = match self.rows[row] {
            RowDomain::Linear(b) => b,
            _ => Bounds::free(),
        };
        match side {
            Side::Lower => {
                bounds.lower = value;
            },
            Side::Upper => {
                bounds.upper = value;
            },
        }
        self.replace_row_bounds(row, bounds);
        self.tape.push(Rule::TightenedRow { row, source, ratio, side });
    }

    /// Remove redundant sides of a row. The remaining multiplier needs no
    /// transformation, so nothing is recorded.
    pub fn relax_row(&mut self, row: usize, bounds: Bounds)
        requires
            old(self).wf(),
            row < old(self).rows@.len(),
            old(self).rows@[row as int] is Linear,
            old(self).revision < usize::MAX,
        ensures
            final(self).wf(),
            final(self).a == old(self).a,
            final(self).rows@ == old(self).rows@.update(row as int, RowDomain::Linear(bounds)),
            final(self).bounds@ == old(self).bounds@,
            final(self).alive@ == old(self).alive@,
            final(self).revision == old(self).revision + 1,
            final(self).tape@ == old(self).tape@,
    {
        self.replace_row_bounds(row, bounds);
    }
}

/// One row's share of a bound change: its activity is stale, and an equality
/// may now be worth a substitution.
pub open spec fn activity_noted(
    waiting: Waiting,
    row: usize,
    domain: RowDomain,
    size: nat,
    eager: bool,
) -> Waiting {
    let stale = Waiting {
        propagation: queues::scheduled(waiting.propagation, row),
        singleton_scan: queues::scheduled(waiting.singleton_scan, row),
        ..waiting
    };
    if domain.is_equality() && size == 2 {
        Waiting { doubleton_rows: queues::scheduled(waiting.doubleton_rows, row), ..stale }
    } else if domain.is_equality() && size >= 3 && eager {
        Waiting { short_equalities: queues::scheduled(waiting.short_equalities, row), ..stale }
    } else {
        stale
    }
}

/// The queues after the bounds of a column with these entries changed.
pub open spec fn activities_noted(
    waiting: Waiting,
    entries: Seq<(usize, Real)>,
    rows: Seq<RowDomain>,
    a: Map<(int, int), Real>,
    eager: bool,
) -> Waiting
    decreases entries.len(),
{
    if entries.len() == 0 {
        waiting
    } else {
        let i = entries.last().0;
        activity_noted(
            activities_noted(waiting, entries.drop_last(), rows, a, eager),
            i,
            rows[i as int],
            linked::line_items(a, false, i as int).len(),
            eager,
        )
    }
}

/// The changed cone blocks after the bounds of a column with these entries changed.
pub open spec fn cones_noted(
    changed: Seq<usize>,
    entries: Seq<(usize, Real)>,
    rows: Seq<RowDomain>,
) -> Seq<usize>
    decreases entries.len(),
{
    if entries.len() == 0 {
        changed
    } else {
        cone_noted(
            cones_noted(changed, entries.drop_last(), rows),
            rows[entries.last().0 as int],
        )
    }
}

/// The queues after a column with these entries takes new bounds.
pub open spec fn bounds_noted(
    waiting: Waiting,
    column: usize,
    bounds: Bounds,
    entries: Seq<(usize, Real)>,
    rows: Seq<RowDomain>,
    a: Map<(int, int), Real>,
    eager: bool,
) -> Waiting {
    let fixed = if bounds.is_equality() {
        Waiting { fixed_columns: queues::scheduled(waiting.fixed_columns, column), ..waiting }
    } else {
        waiting
    };
    activities_noted(fixed, entries, rows, a, eager).column_changed(
        column,
        linked::line_items(a, true, column as int).len(),
    )
}

impl Model {
    /// Give a column new bounds. `eager` also schedules longer equalities
    /// through the column, for rules that substitute bounded variables.
    pub fn set_bounds(&mut self, column: usize, bounds: Bounds, eager: bool)
        requires
            old(self).wf(),
            column < old(self).bounds@.len(),
            old(self).revision < usize::MAX,
        ensures
            final(self).wf(),
            final(self).a == old(self).a,
            final(self).rows@ == old(self).rows@,
            final(self).bounds@ == old(self).bounds@.update(column as int, bounds),
            final(self).alive@ == old(self).alive@,
            final(self).locks@ == old(self).locks@,
            final(self).revision == old(self).revision + 1,
            final(self).tape@ == old(self).tape@,
            final(self).cones@ == old(self).cones@,
            final(self).cone_rows@ == old(self).cone_rows@,
            forall|i: int|
                0 <= i < final(self).cached@.len() ==> #[trigger] final(self).cached@[i] == (old(
                    self,
                ).cached@[i] && !old(self).a@.contains_key((i, column as int))),
            forall|entries: Seq<(usize, Real)>|
                linked::lists_line(entries, old(self).a@, true, column as int) ==> {
                    &&& final(self).queues@ == #[trigger] bounds_noted(
                        old(self).queues@,
                        column,
                        bounds,
                        entries,
                        old(self).rows@,
                        old(self).a@,
                        eager,
                    )
                    &&& final(self).changed_cones@ == cones_noted(
                        old(self).changed_cones@,
                        entries,
                        old(self).rows@,
                    )
                },
    {
        let ghost start = *self;
        let ghost c = column as int;
        self.bounds.set(column, bounds);
        proof {
            self.a.stored_positions();
        }
        if bounds.equality() {
            self.queues.fixed_columns.push(column);
        }
        let ghost fixed = self.queues@;
        let entries = self.a.column(column).to_vec();
        let mut at: usize = 0;
        proof {
            assert(entries@.take(0) =~= Seq::<(usize, Real)>::empty());
            assert forall|a: int| 0 <= a < entries@.len() implies (#[trigger] entries@[a]).0
                < self.rows@.len() by {
                assert(start.a@.contains_key(linked::place(true, c, entries@[a].0 as int)));
                assert(start.a@.contains_key((entries@[a].0 as int, c)));
            }
        }
        while at < entries.len()
            invariant
                start.wf(),
                at <= entries@.len(),
                column == c,
                forall|a: int|
                    0 <= a < entries@.len() ==> (#[trigger] entries@[a]).0 < start.rows@.len(),
                self.cached@.len() == start.cached@.len(),
                *self == (Model {
                    bounds: self.bounds,
                    queues: self.queues,
                    cached: self.cached,
                    changed_cones: self.changed_cones,
                    ..start
                }),
                self.bounds@ == start.bounds@.update(c, bounds),
                self.queues.wf(),
                self.changed_cones.wf(),
                self.queues.changed_activities.rows() == start.rows@.len(),
                self.queues@ == activities_noted(
                    fixed,
                    entries@.take(at as int),
                    start.rows@,
                    start.a@,
                    eager,
                ),
                self.changed_cones@ == cones_noted(
                    start.changed_cones@,
                    entries@.take(at as int),
                    start.rows@,
                ),
                forall|i: int|
                    0 <= i < self.cached@.len() ==> #[trigger] self.cached@[i] == (start.cached@[i]
                        && !(exists|a: int| 0 <= a < at && (#[trigger] entries@[a]).0 == i)),
            decreases entries@.len() - at,
        {
            let i: usize = entries[at].0;
            let ghost cached0 = self.cached@;
            proof {
                self.a.stored_positions();
                assert(entries@.take(at + 1).drop_last() =~= entries@.take(at as int));
                assert(entries@.take(at + 1).last() == entries@[at as int]);
                assert(start.rows@[i as int] == start.rows@[i as int]);
            }
            self.cached.set(i, false);
            self.queues.changed_activities.push(i);
            let domain = self.rows[i];
            match domain {
                RowDomain::Cone { block, .. } => {
                    self.changed_cones.push(block);
                },
                _ => {},
            }
            if domain.equality() {
                let size: usize = self.a.row(i).len();
                if size == 2 {
                    self.queues.doubleton_rows.push(i);
                } else if size >= 3 && eager {
                    self.queues.short_equalities.push(i);
                }
            }
            proof {
                assert forall|k: int| 0 <= k < self.cached@.len() implies #[trigger] self.cached@[k]
                    == (start.cached@[k] && !(exists|a: int|
                    0 <= a < at + 1 && (#[trigger] entries@[a]).0 == k)) by {
                    if k == i {
                        assert(entries@[at as int].0 == k);
                    } else {
                        assert(self.cached@[k] == cached0[k]);
                        if exists|a: int| 0 <= a < at + 1 && (#[trigger] entries@[a]).0 == k {
                            let a = choose|a: int|
                                0 <= a < at + 1 && (#[trigger] entries@[a]).0 == k;
                            assert(a < at);
                            assert(entries@[a].0 == k);
                        }
                    }
                }
                assert(self.queues@ =~= activity_noted(
                    activities_noted(fixed, entries@.take(at as int), start.rows@, start.a@, eager),
                    i,
                    start.rows@[i as int],
                    linked::line_items(start.a@, false, i as int).len(),
                    eager,
                ));
            }
            at = at + 1;
        }
        let size: usize = self.a.column(column).len();
        self.queues.column_changed(column, size);
        self.revision = self.revision + 1;
        proof {
            assert(entries@.take(at as int) =~= entries@);
            assert forall|i: int| 0 <= i < self.cached@.len() implies #[trigger] self.cached@[i] == (
            start.cached@[i] && !start.a@.contains_key((i, c))) by {
                assert(linked::place(true, c, i) == (i, c));
                if start.a@.contains_key((i, c)) {
                    assert(start.a@.contains_key(linked::place(true, c, i)));
                    let a = choose|a: int| 0 <= a < entries@.len() && (#[trigger] entries@[a]).0 == i;
                    assert(entries@[a].0 == i);
                }
                if exists|a: int| 0 <= a < at && (#[trigger] entries@[a]).0 == i {
                    let a = choose|a: int| 0 <= a < at && (#[trigger] entries@[a]).0 == i;
                    assert(start.a@.contains_key(linked::place(true, c, entries@[a].0 as int)));
                }
            }
            assert forall|other: Seq<(usize, Real)>|
                linked::lists_line(other, start.a@, true, c) implies {
                &&& self.queues@ == #[trigger] bounds_noted(
                    start.queues@,
                    column,
                    bounds,
                    other,
                    start.rows@,
                    start.a@,
                    eager,
                )
                &&& self.changed_cones@ == cones_noted(start.changed_cones@, other, start.rows@)
            } by {
                linked::listing_is_unique(other, entries@, start.a@, true, c);
            }
        }
    }

    /// Drop one side of a column's bounds.
    pub fn relax_bound(&mut self, column: usize, side: Side, eager: bool)
        requires
            old(self).wf(),
            column < old(self).bounds@.len(),
            old(self).revision < usize::MAX,
        ensures
            final(self).wf(),
            final(self).a == old(self).a,
            final(self).rows@ == old(self).rows@,
            final(self).bounds@ == old(self).bounds@.update(
                column as int,
                match side {
                    Side::Lower => Bounds {
                        lower: neg_infinity(),
                        ..old(self).bounds@[column as int]
                    },
                    Side::Upper => Bounds { upper: infinity(), ..old(self).bounds@[column as int] },
                },
            ),
            final(self).alive@ == old(self).alive@,
            final(self).locks@ == old(self).locks@,
            final(self).revision == old(self).revision + 1,
            final(self).tape@ == old(self).tape@,
    {
        let mut bounds = self.bounds[column];
        match side {
            Side::Lower => {
                bounds.lower = neg_infinity();
            },
            Side::Upper => {
                bounds.upper = infinity();
            },
        }
        self.set_bounds(column, bounds, eager);
    }

    /// Tighten one side of a column's bounds to a finite value that a row
    /// implies, and record the row. Returns whether the side moved.
    pub fn tighten_bound(
        &mut self,
        column: usize,
        side: Side,
        value: Real,
        equation: Equation,
        eager: bool,
    ) -> (tightened: bool)
        requires
            old(self).wf(),
            column < old(self).bounds@.len(),
            equation.fits(old(self).bounds@.len(), old(self).rows@.len()),
            equation.stores(column),
            old(self).revision < usize::MAX,
        ensures
            final(self).wf(),
            tightened == (value.finite() && match side {
                Side::Lower => old(self).bounds@[column as int].lower.lt(value),
                Side::Upper => value.lt(old(self).bounds@[column as int].upper),
            }),
            final(self).a == old(self).a,
            final(self).rows@ == old(self).rows@,
            final(self).alive@ == old(self).alive@,
            final(self).locks@ == old(self).locks@,
            !tightened ==> *final(self) == *old(self),
            tightened ==> {
                let b = old(self).bounds@[column as int];
                &&& final(self).bounds@ == old(self).bounds@.update(
                    column as int,
                    match side {
                        Side::Lower => Bounds { lower: value, ..b },
                        Side::Upper => Bounds { upper: value, ..b },
                    },
                )
                &&& final(self).revision == old(self).revision + 1
                &&& final(self).tape@ == old(self).tape@.push(
                    Rule::TightenedBound { column, equation, side, old: side.of(b) },
                )
            },
    {
        if !value.is_finite() {
            return false;
        }
        let mut bounds = self.bounds[column];
        let was = side.value(bounds);
        match side {
            Side::Lower => {
                if !was.less(value) {
                    return false;
                }
                bounds.lower = value;
            },
            Side::Upper => {
                if !value.less(was) {
                    return false;
                }
                bounds.upper = value;
            },
        }
        self.tape.push(Rule::TightenedBound { column, equation, side, old: was });
        self.set_bounds(column, bounds, eager);
        true
    }

    /// Append a variable without entries and return its index.
    pub fn add_variable(&mut self, bounds: Bounds) -> (column: usize)
        requires
            old(self).wf(),
            old(self).a.column_count() + 1 < NONE,
            old(self).revision < usize::MAX,
        ensures
            final(self).wf(),
            column == old(self).bounds@.len(),
            final(self).a@ == old(self).a@,
            final(self).rows@ == old(self).rows@,
            final(self).bounds@ == old(self).bounds@.push(bounds),
            final(self).alive@ == old(self).alive@.push(true),
            final(self).locks@ == old(self).locks@.push((Locks { up: 0, down: 0 })),
            final(self).revision == old(self).revision + 1,
            final(self).tape@ == old(self).tape@,
            final(self).queues@ == old(self).queues@,
    {
        proof {
            self.a.stored_positions();
        }
        let column: usize = self.a.add_column();
        self.bounds.push(bounds);
        self.alive.push(true);
        self.locks.push(Locks { up: 0, down: 0 });
        self.revision = self.revision + 1;
        proof {
            assert forall|j: int| 0 <= j < self.locks@.len() implies {
                &&& (#[trigger] self.locks@[j]).up == locking(self.a@, self.rows@, j, true).len()
                &&& self.locks@[j].down == locking(self.a@, self.rows@, j, false).len()
            } by {
                if j < column {
                    assert(self.locks@[j] == old(self).locks@[j]);
                } else {
                    assert forall|i: int| !self.a@.contains_key((i, j)) by {
                        if self.a@.contains_key((i, j)) {
                            assert(old(self).a@.contains_key((i, j)));
                        }
                    }
                    assert(locking(self.a@, self.rows@, j, true) =~= Set::<int>::empty());
                    assert(locking(self.a@, self.rows@, j, false) =~= Set::<int>::empty());
                }
            }
        }
        column
    }
}

} // verus!
