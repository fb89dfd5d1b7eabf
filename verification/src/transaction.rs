//! Building the working model and the mutations that touch many rows at once.

use crate::bounds::{self, Bounds, Locks, RowDomain};
use crate::cone::Cone;
use crate::linked::{self, Entries, LinkedMatrix, NONE};
use crate::model::{self, Model, Rule};
use crate::number::Real;
use crate::queues::{self, Queues, Waiting, Worklist};
use crate::tape::Gradient;
use crate::tape;
use vstd::prelude::*;

verus! {

/// A row keeps its kind and which of its sides are finite.
pub open spec fn same_sides(before: RowDomain, after: RowDomain) -> bool {
    match (before, after) {
        (RowDomain::Linear(b), RowDomain::Linear(c)) => b.lower.finite() == c.lower.finite()
            && b.upper.finite() == c.upper.finite(),
        (RowDomain::Cone { block: b, .. }, RowDomain::Cone { block: c, .. }) => b == c,
        (RowDomain::Deleted, RowDomain::Deleted) => true,
        _ => false,
    }
}

/// The queues after the rows listed in a removed column changed, in order.
pub open spec fn rows_noted(
    waiting: Waiting,
    entries: Seq<(usize, Real)>,
    rows: Seq<RowDomain>,
    a: Map<(int, int), Real>,
) -> Waiting
    decreases entries.len(),
{
    if entries.len() == 0 {
        waiting
    } else {
        let i = entries.last().0;
        model::row_noted(
            rows_noted(waiting, entries.drop_last(), rows, a),
            i,
            rows[i as int],
            a,
        )
    }
}

/// The row domains after the listed rows took new ones.
pub open spec fn domains_set(
    rows: Seq<RowDomain>,
    entries: Seq<(usize, Real)>,
    domains: Seq<RowDomain>,
) -> Seq<RowDomain>
    decreases entries.len(),
{
    if entries.len() == 0 {
        rows
    } else {
        let n = entries.len() - 1;
        domains_set(rows, entries.drop_last(), domains).update(entries[n].0 as int, domains[n])
    }
}

pub(crate) proof fn domains_set_length(
    rows: Seq<RowDomain>,
    entries: Seq<(usize, Real)>,
    domains: Seq<RowDomain>,
)
    requires
        model::in_range(entries, rows.len()),
    ensures
        domains_set(rows, entries, domains).len() == rows.len(),
    decreases entries.len(),
{
    if entries.len() > 0 {
        let less = entries.drop_last();
        assert forall|k: int| 0 <= k < less.len() implies (#[trigger] less[k]).0 < rows.len() by {
            assert(entries[k].0 < rows.len());
        }
        assert(entries[entries.len() - 1].0 < rows.len());
        domains_set_length(rows, entries.drop_last(), domains);
    }
}

proof fn domains_set_reads(
    rows: Seq<RowDomain>,
    entries: Seq<(usize, Real)>,
    domains: Seq<RowDomain>,
    i: int,
)
    requires
        forall|a: int, b: int|
            0 <= a < b < entries.len() ==> (#[trigger] entries[a]).0 < (#[trigger] entries[b]).0,
        forall|a: int| 0 <= a < entries.len() ==> (#[trigger] entries[a]).0 < rows.len(),
        0 <= i < rows.len(),
    ensures
        domains_set(rows, entries, domains).len() == rows.len(),
        forall|a: int|
            0 <= a < entries.len() && (#[trigger] entries[a]).0 == i ==> domains_set(
                rows,
                entries,
                domains,
            )[i] == domains[a],
        (forall|a: int| 0 <= a < entries.len() ==> (#[trigger] entries[a]).0 != i) ==> domains_set(
            rows,
            entries,
            domains,
        )[i] == rows[i],
    decreases entries.len(),
{
    if entries.len() > 0 {
        let less = entries.drop_last();
        assert forall|a: int, b: int| 0 <= a < b < less.len() implies (#[trigger] less[a]).0 < (
        #[trigger] less[b]).0 by {
            assert(entries[a].0 < entries[b].0);
        }
        assert forall|a: int| 0 <= a < less.len() implies (#[trigger] less[a]).0 < rows.len() by {
            assert(entries[a].0 < rows.len());
        }
        domains_set_reads(rows, less, domains, i);
        assert forall|a: int| 0 <= a < entries.len() && (#[trigger] entries[a]).0
            == i implies domains_set(rows, entries, domains)[i] == domains[a] by {
            if a < less.len() {
                assert(less[a].0 == i);
                assert(entries[a].0 < entries[entries.len() - 1].0);
            }
        }
        if forall|a: int| 0 <= a < entries.len() ==> (#[trigger] entries[a]).0 != i {
            assert forall|a: int| 0 <= a < less.len() implies (#[trigger] less[a]).0 != i by {
                assert(entries[a].0 != i);
            }
            assert(entries[entries.len() - 1].0 != i);
        }
    }
}

/// Locks do not depend on the values of a row's sides, only on which are finite.
proof fn locking_ignores_values(
    a: Map<(int, int), Real>,
    before: Seq<RowDomain>,
    after: Seq<RowDomain>,
    j: int,
    up: bool,
)
    requires
        before.len() == after.len(),
        model::within_rows(a, before.len()),
        forall|i: int|
            0 <= i < before.len() ==> same_sides(#[trigger] before[i], after[i]),
    ensures
        model::locking(a, before, j, up) == model::locking(a, after, j, up),
{
    assert(model::locking(a, before, j, up) =~= model::locking(a, after, j, up)) by {
        assert forall|i: int| model::locking(a, before, j, up).contains(i) <==> model::locking(
            a,
            after,
            j,
            up,
        ).contains(i) by {
            if a.contains_key((i, j)) {
                assert(same_sides(before[i], after[i]));
            }
        }
    }
}

impl Model {
    /// Remove a column. `shifted` holds, for the rows of the column in order,
    /// their new domains; `coupled` lists the columns whose objective coefficient
    /// changed.
    pub fn detach(
        &mut self,
        column: usize,
        shifted: &Vec<RowDomain>,
        coupled: &Entries,
    ) -> (entries: Entries)
        requires
            old(self).wf(),
            column < old(self).bounds@.len(),
            old(self).alive@[column as int],
            old(self).revision < usize::MAX,
            forall|entries: Seq<(usize, Real)>| #[trigger]
                linked::lists_line(entries, old(self).a@, true, column as int) ==> shifted@.len()
                    == entries.len() && forall|k: int|
                    0 <= k < entries.len() ==> same_sides(
                        old(self).rows@[(#[trigger] entries[k]).0 as int],
                        shifted@[k],
                    ),
            forall|k: int| 0 <= k < coupled@.len() ==> (#[trigger] coupled@[k]).0 < old(self).a.column_count(),
        ensures
            final(self).wf(),
            linked::lists_line(entries@, old(self).a@, true, column as int),
            final(self).a@ == old(self).a@.remove_keys(
                old(self).a@.dom().filter(|p: (int, int)| p.1 == column),
            ),
            final(self).rows@ == domains_set(old(self).rows@, entries@, shifted@),
            final(self).bounds@ == old(self).bounds@,
            final(self).alive@ == old(self).alive@.update(column as int, false),
            final(self).locks@ == old(self).locks@.update(
                column as int,
                (Locks { up: 0, down: 0 }),
            ),
            final(self).revision == old(self).revision + 1,
            final(self).tape@ == old(self).tape@,
            final(self).queues@ == rows_noted(
                model::columns_noted(
                    old(self).queues@,
                    coupled@,
                    old(self).alive@,
                    old(self).a@,
                ),
                entries@,
                final(self).rows@,
                final(self).a@,
            ),
    {
        let ghost start = *self;
        let ghost c = column as int;
        self.note_columns(coupled);
        self.alive.set(column, false);
        let entries = self.a.remove_column(column);
        let ghost a1 = self.a@;
        let ghost noted = self.queues@;
        proof {
            start.a.stored_positions();
            assert forall|k: int| 0 <= k < entries@.len() implies (#[trigger] entries@[k]).0
                < self.rows@.len() by {
                assert(start.a@.contains_key(linked::place(true, c, entries@[k].0 as int)));
                assert(start.a@.contains_key((entries@[k].0 as int, c)));
            }
            assert(model::locking(a1, start.rows@, c, true) =~= Set::<int>::empty());
            assert(model::locking(a1, start.rows@, c, false) =~= Set::<int>::empty());
            assert forall|j: int, up: bool| j != c implies #[trigger] model::locking(
                a1,
                start.rows@,
                j,
                up,
            ) == model::locking(start.a@, start.rows@, j, up) by {
                assert(model::locking(a1, start.rows@, j, up) =~= model::locking(
                    start.a@,
                    start.rows@,
                    j,
                    up,
                ));
            }
        }
        // Every lock on the column came from the rows just removed.
        self.locks.set(column, Locks { up: 0, down: 0 });
        let mut at: usize = 0;
        proof {
            assert(entries@.take(0) =~= Seq::<(usize, Real)>::empty());
            assert(self.wf());
        }
        while at < entries.len()
            invariant
                start.wf(),
                at <= entries@.len(),
                shifted@.len() == entries@.len(),
                column == c,
                c < start.bounds@.len(),
                forall|k: int|
                    0 <= k < entries@.len() ==> (#[trigger] entries@[k]).0 < start.rows@.len(),
                forall|k: int|
                    0 <= k < entries@.len() ==> same_sides(
                        start.rows@[(#[trigger] entries@[k]).0 as int],
                        shifted@[k],
                    ),
                forall|a: int, b: int|
                    0 <= a < b < entries@.len() ==> (#[trigger] entries@[a]).0 < (
                    #[trigger] entries@[b]).0,
                self.wf(),
                self.a@ == a1,
                self.bounds@ == start.bounds@,
                self.alive@ == start.alive@.update(c, false),
                self.locks@ == start.locks@.update(c, (Locks { up: 0, down: 0 })),
                self.revision == start.revision,
                self.tape@ == start.tape@,
                self.rows@ == domains_set(start.rows@, entries@.take(at as int), shifted@),
                self.rows@.len() == start.rows@.len(),
                self.queues@ == rows_noted(
                    noted,
                    entries@.take(at as int),
                    self.rows@,
                    a1,
                ),
            decreases entries@.len() - at,
        {
            let i: usize = entries[at].0;
            let ghost before = *self;
            proof {
                assert(entries@.take(at + 1).drop_last() =~= entries@.take(at as int));
                assert(entries@.take(at + 1).last() == entries@[at as int]);
                let less = entries@.take(at as int);
                assert forall|a: int, b: int| 0 <= a < b < less.len() implies (
                #[trigger] less[a]).0 < (#[trigger] less[b]).0 by {
                    assert(entries@[a].0 < entries@[b].0);
                }
                assert forall|a: int| 0 <= a < less.len() implies (#[trigger] less[a]).0
                    < start.rows@.len() by {
                    assert(entries@[a].0 < start.rows@.len());
                }
                domains_set_reads(start.rows@, less, shifted@, i as int);
                assert forall|a: int| 0 <= a < less.len() implies (#[trigger] less[a]).0 != i by {
                    assert(entries@[a].0 < entries@[at as int].0);
                }
                assert(self.rows@[i as int] == start.rows@[i as int]);
            }
            self.rows.set(i, shifted[at]);
            proof {
                let rows1 = self.rows@;
                assert forall|r: int| 0 <= r < rows1.len() implies same_sides(
                    #[trigger] before.rows@[r],
                    rows1[r],
                ) by {}
                self.a.stored_positions();
                assert forall|j: int| 0 <= j < self.locks@.len() implies {
                    &&& (#[trigger] self.locks@[j]).up == model::locking(a1, rows1, j, true).len()
                    &&& self.locks@[j].down == model::locking(a1, rows1, j, false).len()
                } by {
                    locking_ignores_values(a1, before.rows@, rows1, j, true);
                    locking_ignores_values(a1, before.rows@, rows1, j, false);
                    assert(before.locks@[j] == self.locks@[j]);
                }
                assert(self.wf());
                rows_noted_ignores_later(noted, entries@.take(at as int), before.rows@, rows1, a1, i);
            }
            self.changed_row(i);
            at = at + 1;
        }
        proof {
            assert(entries@.take(at as int) =~= entries@);
        }
        self.revision = self.revision + 1;
        entries
    }

    /// Remove a column whose variable takes a value. `shifted` holds, for the
    /// rows of the column in order, their domains with the value moved into the
    /// sides; `coupled` lists the columns whose objective coefficient changed.
    pub fn fix(
        &mut self,
        column: usize,
        value: Real,
        shifted: &Vec<RowDomain>,
        coupled: &Entries,
        gradient: Gradient,
    ) -> (entries: Entries)
        requires
            old(self).wf(),
            column < old(self).bounds@.len(),
            old(self).alive@[column as int],
            old(self).revision < usize::MAX,
            forall|entries: Seq<(usize, Real)>| #[trigger]
                linked::lists_line(entries, old(self).a@, true, column as int) ==> shifted@.len()
                    == entries.len() && forall|k: int|
                    0 <= k < entries.len() ==> same_sides(
                        old(self).rows@[(#[trigger] entries[k]).0 as int],
                        shifted@[k],
                    ),
            forall|k: int| 0 <= k < coupled@.len() ==> (#[trigger] coupled@[k]).0 < old(self).a.column_count(),
            tape::within(gradient.terms@, old(self).bounds@.len()),
        ensures
            final(self).wf(),
            linked::lists_line(entries@, old(self).a@, true, column as int),
            final(self).a@ == old(self).a@.remove_keys(
                old(self).a@.dom().filter(|p: (int, int)| p.1 == column),
            ),
            final(self).rows@ == domains_set(old(self).rows@, entries@, shifted@),
            final(self).bounds@ == old(self).bounds@,
            final(self).alive@ == old(self).alive@.update(column as int, false),
            final(self).locks@ == old(self).locks@.update(
                column as int,
                (Locks { up: 0, down: 0 }),
            ),
            final(self).revision == old(self).revision + 1,
            final(self).tape@.len() == old(self).tape@.len() + 1,
            final(self).tape@.drop_last() == old(self).tape@,
            final(self).tape@.last() matches Rule::Fixed {
                column: c,
                value: v,
                gradient: g,
                entries: e,
            } && c == column && v == value && g == gradient && e@ == entries@,
            final(self).queues@ == rows_noted(
                model::columns_noted(
                    old(self).queues@,
                    coupled@,
                    old(self).alive@,
                    old(self).a@,
                ),
                entries@,
                final(self).rows@,
                final(self).a@,
            ),
    {
        let ghost start = *self;
        let entries = self.detach(column, shifted, coupled);
        proof {
            start.a.stored_positions();
            assert forall|k: int| 0 <= k < entries@.len() implies (#[trigger] entries@[k]).0
                < start.rows@.len() by {
                assert(start.a@.contains_key(
                    linked::place(true, column as int, entries@[k].0 as int),
                ));
                assert(start.a@.contains_key((entries@[k].0 as int, column as int)));
            }
            domains_set_length(start.rows@, entries@, shifted@);
        }
        let mut copy: Entries = Vec::new();
        let mut k: usize = 0;
        while k < entries.len()
            invariant
                k <= entries@.len(),
                copy@ == entries@.take(k as int),
            decreases entries@.len() - k,
        {
            copy.push(entries[k]);
            k = k + 1;
            assert(copy@ =~= entries@.take(k as int));
        }
        assert(copy@ =~= entries@);
        self.tape.push(Rule::Fixed { column, value, gradient, entries: copy });
        assert(self.tape@.drop_last() =~= start.tape@);
        entries
    }
}

proof fn rows_noted_ignores_later(
    waiting: Waiting,
    entries: Seq<(usize, Real)>,
    before: Seq<RowDomain>,
    after: Seq<RowDomain>,
    a: Map<(int, int), Real>,
    i: usize,
)
    requires
        before.len() == after.len(),
        forall|k: int| 0 <= k < entries.len() ==> (#[trigger] entries[k]).0 != i,
        forall|r: int| 0 <= r < before.len() && r != i ==> #[trigger] before[r] == after[r],
        forall|k: int| 0 <= k < entries.len() ==> (#[trigger] entries[k]).0 < before.len(),
    ensures
        rows_noted(waiting, entries, before, a) == rows_noted(waiting, entries, after, a),
    decreases entries.len(),
{
    if entries.len() > 0 {
        let less = entries.drop_last();
        assert forall|k: int| 0 <= k < less.len() implies (#[trigger] less[k]).0 != i && less[k].0
            < before.len() by {
            assert(entries[k].0 != i);
        }
        rows_noted_ignores_later(waiting, less, before, after, a, i);
        assert(entries[entries.len() - 1].0 != i);
    }
}

// ---- construction ----

/// The queues after every row from the first on is noted.
pub open spec fn all_rows_noted(
    waiting: Waiting,
    rows: Seq<RowDomain>,
    a: Map<(int, int), Real>,
    n: nat,
) -> Waiting
    decreases n,
{
    if n == 0 {
        waiting
    } else {
        model::row_noted(
            all_rows_noted(waiting, rows, a, (n - 1) as nat),
            (n - 1) as usize,
            rows[n - 1],
            a,
        )
    }
}

/// The queues after every column from the first on is noted.
pub open spec fn all_columns_noted(
    waiting: Waiting,
    bounds: Seq<Bounds>,
    a: Map<(int, int), Real>,
    n: nat,
) -> Waiting
    decreases n,
{
    if n == 0 {
        waiting
    } else {
        let j = (n - 1) as usize;
        let noted = all_columns_noted(waiting, bounds, a, (n - 1) as nat).column_changed(
            j,
            linked::line_items(a, true, j as int).len(),
        );
        if bounds[j as int].is_equality() {
            Waiting { fixed_columns: queues::scheduled(noted.fixed_columns, j), ..noted }
        } else {
            noted
        }
    }
}

/// The rows among the first `n` that stop a column.
spec fn locking_below(
    a: Map<(int, int), Real>,
    rows: Seq<RowDomain>,
    j: int,
    up: bool,
    n: int,
) -> Set<int> {
    Set::new(
        |i: int| i < n && a.contains_key((i, j)) && bounds::stops(a[(i, j)], rows[i], up),
    )
}

proof fn locking_below_grows(
    a: Map<(int, int), Real>,
    rows: Seq<RowDomain>,
    entries: Seq<(usize, Real)>,
    j: int,
    up: bool,
    n: int,
)
    requires
        model::within_rows(a, rows.len()),
        0 <= n < rows.len(),
        linked::lists_line(entries, a, false, n),
    ensures
        locking_below(a, rows, j, up, n).finite(),
        locking_below(a, rows, j, up, n + 1).finite(),
        locking_below(a, rows, j, up, n + 1).len() == locking_below(a, rows, j, up, n).len()
            + model::one_if(model::presses(entries, rows[n], j, up)),
        locking_below(a, rows, j, up, n).len() <= rows.len(),
{
    model::locking_is_finite(a, rows, j, up);
    let all = model::locking(a, rows, j, up);
    let less = locking_below(a, rows, j, up, n);
    let more = locking_below(a, rows, j, up, n + 1);
    assert(less.subset_of(all) && more.subset_of(all));
    vstd::set_lib::lemma_len_subset(less, all);
    vstd::set_lib::lemma_len_subset(more, all);
    model::pressed_row(a, rows[n], entries, n, j, up);
    if model::presses(entries, rows[n], j, up) {
        assert(more =~= less.insert(n));
    } else {
        assert(more =~= less);
    }
}

/// Count, for every column, the rows that stop it.
fn count_locks(a: &LinkedMatrix, rows: &Vec<RowDomain>) -> (locks: Vec<Locks>)
    requires
        a.wf(),
        rows@.len() == a.row_count(),
    ensures
        locks@.len() == a.column_count(),
        model::locks_count(locks@, a@, rows@),
{
    proof {
        a.stored_positions();
    }
    let columns: usize = a.columns_total();
    let mut locks: Vec<Locks> = Vec::new();
    let mut at: usize = 0;
    while at < columns
        invariant
            at <= columns,
            locks@.len() == at,
            forall|j: int| 0 <= j < at ==> #[trigger] locks@[j] == (Locks { up: 0, down: 0 }),
        decreases columns - at,
    {
        locks.push(Locks { up: 0, down: 0 });
        at = at + 1;
    }
    let mut i: usize = 0;
    proof {
        assert forall|j: int, up: bool| #[trigger] locking_below(a@, rows@, j, up, 0) =~= Set::<
            int,
        >::empty() by {}
    }
    while i < rows.len()
        invariant
            a.wf(),
            rows@.len() == a.row_count(),
            rows@.len() < NONE,
            model::within_rows(a@, rows@.len()),
            i <= rows@.len(),
            locks@.len() == a.column_count(),
            forall|j: int|
                0 <= j < locks@.len() ==> {
                    &&& (#[trigger] locks@[j]).up == locking_below(
                        a@,
                        rows@,
                        j,
                        true,
                        i as int,
                    ).len()
                    &&& locks@[j].down == locking_below(a@, rows@, j, false, i as int).len()
                },
        decreases rows@.len() - i,
    {
        let entries = a.row(i).to_vec();
        let ghost before = locks@;
        proof {
            a.stored_positions();
            assert forall|k: int| 0 <= k < entries@.len() implies (#[trigger] entries@[k]).0
                < locks@.len() by {
                assert(a@.contains_key(linked::place(false, i as int, entries@[k].0 as int)));
                assert(a@.contains_key((i as int, entries@[k].0 as int)));
            }
            assert forall|j: int| 0 <= j < locks@.len() implies {
                &&& model::presses(entries@, rows@[i as int], j, true) ==> (
                #[trigger] locks@[j]).up < usize::MAX
                &&& model::presses(entries@, rows@[i as int], j, false) ==> locks@[j].down
                    < usize::MAX
            } by {
                locking_below_grows(a@, rows@, entries@, j, true, i as int);
                locking_below_grows(a@, rows@, entries@, j, false, i as int);
            }
        }
        model::lock(&mut locks, &entries, rows[i]);
        proof {
            assert forall|j: int| 0 <= j < locks@.len() implies {
                &&& (#[trigger] locks@[j]).up == locking_below(a@, rows@, j, true, i + 1).len()
                &&& locks@[j].down == locking_below(a@, rows@, j, false, i + 1).len()
            } by {
                locking_below_grows(a@, rows@, entries@, j, true, i as int);
                locking_below_grows(a@, rows@, entries@, j, false, i as int);
                assert(before[j].up == locking_below(a@, rows@, j, true, i as int).len());
            }
        }
        i = i + 1;
    }
    proof {
        assert forall|j: int| 0 <= j < locks@.len() implies {
            &&& (#[trigger] locks@[j]).up == model::locking(a@, rows@, j, true).len()
            &&& locks@[j].down == model::locking(a@, rows@, j, false).len()
        } by {
            assert(locking_below(a@, rows@, j, true, i as int) =~= model::locking(a@, rows@, j, true));
            assert(locking_below(a@, rows@, j, false, i as int) =~= model::locking(
                a@,
                rows@,
                j,
                false,
            ));
        }
    }
    locks
}

impl Model {
    /// A model with every row and column scheduled once.
    pub fn from_parts(a: LinkedMatrix, rows: Vec<RowDomain>, bounds: Vec<Bounds>) -> (model: Self)
        requires
            a.wf(),
            rows@.len() == a.row_count(),
            bounds@.len() == a.column_count(),
            forall|i: int|
                0 <= i < rows@.len() ==> ((#[trigger] rows@[i]) matches RowDomain::Cone {
                    block,
                    ..
                } ==> block < usize::MAX),
            forall|i: int, j: int| #[trigger]
                a@.contains_key((i, j)) ==> !(rows@[i] is Deleted),
        ensures
            model.wf(),
            model.a == a,
            model.rows@ == rows@,
            model.bounds@ == bounds@,
            model.alive@ == Seq::new(bounds@.len(), |j: int| true),
            model.cached@ == Seq::new(rows@.len(), |i: int| false),
            model.revision == 0,
            model.tape@.len() == 0,
            model.cones@.len() == 0,
            model.cone_rows@.len() == 0,
            model.changed_cones@ == blocks_noted(Seq::empty(), rows@, rows@.len()),
            model.queues@ == all_columns_noted(
                all_rows_noted(nothing_waits(), rows@, a@, rows@.len()),
                bounds@,
                a@,
                bounds@.len(),
            ),
    {
        let m: usize = rows.len();
        let n: usize = bounds.len();
        let locks = count_locks(&a, &rows);
        proof {
            a.stored_positions();
        }
        let mut model = Model {
            a,
            rows,
            bounds,
            alive: vec![true; n],
            locks,
            queues: Queues::new(m, n),
            cached: vec![false; m],
            revision: 0,
            cones: Vec::new(),
            cone_rows: Vec::new(),
            changed_cones: Worklist::new(0),
            tape: Vec::new(),
        };
        let ghost start = model;
        let ghost empty = model.queues@;
        assert(empty =~= nothing_waits());
        assert(model.changed_cones@ =~= Seq::<usize>::empty());
        let mut i: usize = 0;
        while i < m
            invariant
                i <= m,
                m == model.rows@.len(),
                model.wf(),
                model.a == start.a,
                model.rows@ == start.rows@,
                model.bounds@ == start.bounds@,
                model.alive@ == start.alive@,
                model.revision == 0,
                model.tape@ == start.tape@,
                model.cones@ == start.cones@,
                model.cone_rows@ == start.cone_rows@,
                model.changed_cones@ == blocks_noted(Seq::empty(), start.rows@, i as nat),
                model.cached@ =~= Seq::new(start.rows@.len(), |i: int| false),
                model.queues@ == all_rows_noted(empty, start.rows@, start.a@, i as nat),
            decreases m - i,
        {
            model.changed_row(i);
            i = i + 1;
        }
        let ghost after_rows = model.queues@;
        let ghost noted_cones = model.changed_cones@;
        let mut j: usize = 0;
        while j < n
            invariant
                j <= n,
                n == model.bounds@.len(),
                model.wf(),
                model.a == start.a,
                model.rows@ == start.rows@,
                model.bounds@ == start.bounds@,
                model.alive@ == start.alive@,
                model.revision == 0,
                model.tape@ == start.tape@,
                model.cones@ == start.cones@,
                model.cone_rows@ == start.cone_rows@,
                model.changed_cones@ == noted_cones,
                model.cached@ =~= Seq::new(start.rows@.len(), |i: int| false),
                model.queues@ == all_columns_noted(
                    after_rows,
                    start.bounds@,
                    start.a@,
                    j as nat,
                ),
            decreases n - j,
        {
            proof {
                model.a.stored_positions();
            }
            let size: usize = model.a.column(j).len();
            model.queues.column_changed(j, size);
            if model.bounds[j].equality() {
                model.queues.fixed_columns.push(j);
            }
            j = j + 1;
            proof {
                assert(model.queues@ =~= all_columns_noted(
                    after_rows,
                    start.bounds@,
                    start.a@,
                    j as nat,
                ));
            }
        }
        model
    }

    /// Attach cone blocks: list the rows of each block and schedule it.
    pub fn set_cones(&mut self, cones: Vec<Cone>)
        requires
            old(self).wf(),
            cones@.len() < usize::MAX,
            forall|i: int|
                0 <= i < old(self).rows@.len() ==> ((#[trigger] old(
                    self,
                ).rows@[i]) matches RowDomain::Cone { block, .. } ==> block < cones@.len()
                    || cones@.len() == 0),
        ensures
            final(self).wf(),
            final(self).same_problem(old(self)),
            final(self).a == old(self).a,
            final(self).cached@ == old(self).cached@,
            final(self).queues == old(self).queues,
            final(self).revision == old(self).revision,
            final(self).tape@ == old(self).tape@,
            cones@.len() == 0 ==> *final(self) == *old(self),
            cones@.len() > 0 ==> {
                &&& final(self).cones@ == cones@
                &&& final(self).cone_rows@.len() == cones@.len()
                &&& forall|b: int|
                    0 <= b < cones@.len() ==> (#[trigger] final(self).cone_rows@[b])@ == block_rows(
                        old(self).rows@,
                        b,
                        old(self).rows@.len(),
                    )
                &&& final(self).changed_cones@ == blocks_noted(
                    old(self).changed_cones@,
                    old(self).rows@,
                    old(self).rows@.len(),
                )
            },
    {
        if cones.len() == 0 {
            return ;
        }
        let ghost start = *self;
        let count: usize = cones.len();
        let mut lists: Vec<Vec<usize>> = Vec::new();
        let mut at: usize = 0;
        while at < count
            invariant
                at <= count,
                lists@.len() == at,
                forall|b: int| 0 <= b < at ==> (#[trigger] lists@[b])@ == Seq::<usize>::empty(),
            decreases count - at,
        {
            lists.push(Vec::new());
            at = at + 1;
        }
        let mut i: usize = 0;
        while i < self.rows.len()
            invariant
                start.wf(),
                i <= self.rows@.len(),
                count == cones@.len(),
                lists@.len() == count,
                *self == (Model { changed_cones: self.changed_cones, ..start }),
                self.changed_cones.wf(),
                forall|i: int|
                    0 <= i < start.rows@.len() ==> ((
                    #[trigger] start.rows@[i]) matches RowDomain::Cone { block, .. } ==> block
                        < cones@.len() || cones@.len() == 0),
                count > 0,
                count < usize::MAX,
                forall|b: int|
                    0 <= b < count ==> (#[trigger] lists@[b])@ == block_rows(
                        start.rows@,
                        b,
                        i as nat,
                    ),
                self.changed_cones@ == blocks_noted(start.changed_cones@, start.rows@, i as nat),
            decreases self.rows@.len() - i,
        {
            let ghost lists0 = lists@;
            assert(start.rows@[i as int] == start.rows@[i as int]);
            match self.rows[i] {
                RowDomain::Cone { block, .. } => {
                    let mut list: Vec<usize> = Vec::new();
                    std::mem::swap(&mut list, &mut lists[block]);
                    list.push(i);
                    lists.set(block, list);
                    self.changed_cones.push(block);
                },
                _ => {},
            }
            proof {
                assert forall|b: int| 0 <= b < count implies (#[trigger] lists@[b])@ == block_rows(
                    start.rows@,
                    b,
                    (i + 1) as nat,
                ) by {
                    assert(lists0[b]@ == block_rows(start.rows@, b, i as nat));
                }
            }
            i = i + 1;
        }
        self.cone_rows = lists;
        proof {
            assert forall|b: int| 0 <= b < count implies (
            #[trigger] self.cone_rows@[b])@.no_duplicates() by {
                block_rows_ascend(start.rows@, b, start.rows@.len());
            }
            assert forall|b: int, k: int|
                0 <= b < count && 0 <= k < self.cone_rows@[b]@.len() implies (
            #[trigger] self.cone_rows@[b]@[k]) < start.rows@.len() by {
                block_rows_ascend(start.rows@, b, start.rows@.len());
            }
        }
        self.cones = cones;
    }
}

/// The rows among the first `n` that belong to a block, in order.
pub open spec fn block_rows(rows: Seq<RowDomain>, block: int, n: nat) -> Seq<usize>
    decreases n,
{
    if n == 0 {
        Seq::empty()
    } else {
        let before = block_rows(rows, block, (n - 1) as nat);
        match rows[n - 1] {
            RowDomain::Cone { block: b, .. } => if b == block {
                before.push((n - 1) as usize)
            } else {
                before
            },
            _ => before,
        }
    }
}

/// Queues in which nothing waits.
pub open spec fn nothing_waits() -> Waiting {
    Waiting {
        empty_rows: Seq::empty(),
        singleton_rows: Seq::empty(),
        doubleton_rows: Seq::empty(),
        short_equalities: Seq::empty(),
        empty_columns: Seq::empty(),
        singleton_columns: Seq::empty(),
        propagation: Seq::empty(),
        singleton_scan: Seq::empty(),
        fixed_columns: Seq::empty(),
        unlocked_columns: Seq::empty(),
    }
}

/// The rows of a block are listed in ascending order, and they exist.
proof fn block_rows_ascend(rows: Seq<RowDomain>, block: int, n: nat)
    requires
        n <= rows.len() <= usize::MAX,
    ensures
        block_rows(rows, block, n).no_duplicates(),
        forall|k: int|
            0 <= k < block_rows(rows, block, n).len() ==> (#[trigger] block_rows(rows, block, n)[k])
                < n,
    decreases n,
{
    if n > 0 {
        block_rows_ascend(rows, block, (n - 1) as nat);
    }
}

/// The changed blocks after the first `n` rows scheduled theirs.
pub open spec fn blocks_noted(changed: Seq<usize>, rows: Seq<RowDomain>, n: nat) -> Seq<usize>
    decreases n,
{
    if n == 0 {
        changed
    } else {
        model::cone_noted(blocks_noted(changed, rows, (n - 1) as nat), rows[n - 1])
    }
}

} // verus!
