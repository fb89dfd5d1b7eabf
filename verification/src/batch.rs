//! Replacing many rows of the working model in one step.

use crate::assembly;
use crate::bounds::RowDomain;
use crate::linked::{self, Entries, NONE};
use crate::model::{self, Equation, Model, Rule};
use crate::number::Real;
use crate::order;
use crate::queues::{self, Waiting};
use crate::tape;
use vstd::prelude::*;

verus! {

/// A row, its new entries and its new domain.
pub type RowUpdate = (usize, Entries, RowDomain);

/// The matrix part of a list of updates.
pub open spec fn row_entries(updates: Seq<RowUpdate>) -> Seq<(usize, Entries)> {
    Seq::new(updates.len(), |u: int| (updates[u].0, updates[u].1))
}

/// The updates name distinct rows and give each entries that it can hold.
pub open spec fn applicable(updates: Seq<RowUpdate>, rows: nat, columns: nat) -> bool {
    &&& forall|u: int|
        0 <= u < updates.len() ==> {
            &&& (#[trigger] updates[u]).0 < rows
            &&& linked::sorted_entries(updates[u].1@, columns)
            &&& updates[u].2 is Deleted ==> updates[u].1@.len() == 0
            &&& updates[u].2 matches RowDomain::Cone { block, .. } ==> block < usize::MAX
        }
    &&& forall|u: int, v: int|
        0 <= u < v < updates.len() ==> (#[trigger] updates[u]).0 != (#[trigger] updates[v]).0
}

/// One of the first `n` updates is for `row`.
pub open spec fn names_row(updates: Seq<RowUpdate>, n: int, row: int) -> bool {
    exists|u: int| 0 <= u < n && (#[trigger] updates[u]).0 == row
}

/// The row domains after the first `n` updates.
pub open spec fn updated_domains(rows: Seq<RowDomain>, updates: Seq<RowUpdate>, n: nat) -> Seq<
    RowDomain,
>
    decreases n,
{
    if n == 0 {
        rows
    } else {
        updated_domains(rows, updates, (n - 1) as nat).update(
            updates[n - 1].0 as int,
            updates[n - 1].2,
        )
    }
}

/// Updates keep the number of rows.
pub proof fn domains_length(rows: Seq<RowDomain>, updates: Seq<RowUpdate>, n: nat)
    requires
        n <= updates.len(),
        forall|u: int| 0 <= u < updates.len() ==> (#[trigger] updates[u]).0 < rows.len(),
    ensures
        updated_domains(rows, updates, n).len() == rows.len(),
    decreases n,
{
    if n > 0 {
        assert(updates[n - 1].0 < rows.len());
        domains_length(rows, updates, (n - 1) as nat);
    }
}

/// `new` is `old` with every updated row replaced.
pub open spec fn updated_matrix(
    new: Map<(int, int), Real>,
    old: Map<(int, int), Real>,
    updates: Seq<RowUpdate>,
) -> bool {
    &&& forall|u: int|
        0 <= u < updates.len() ==> linked::lists_line(
            (#[trigger] updates[u]).1@,
            new,
            false,
            updates[u].0 as int,
        )
    &&& forall|i: int, j: int|
        !names_row(updates, updates.len() as int, i) ==> {
            &&& (#[trigger] new.contains_key((i, j)) <==> old.contains_key((i, j)))
            &&& new.contains_key((i, j)) ==> new[(i, j)] == old[(i, j)]
        }
}

/// The queues after the columns in which a coefficient changed are noted.
pub open spec fn touched_noted(
    waiting: Waiting,
    touched: Seq<usize>,
    alive: Seq<bool>,
    a: Map<(int, int), Real>,
) -> Waiting
    decreases touched.len(),
{
    if touched.len() == 0 {
        waiting
    } else {
        let before = touched_noted(waiting, touched.drop_last(), alive, a);
        let j = touched.last();
        if alive[j as int] {
            before.column_changed(j, linked::line_items(a, true, j as int).len())
        } else {
            before
        }
    }
}

/// A domain change also affects the locks of coefficients that stayed equal.
pub open spec fn unlocks_noted(waiting: Waiting, entries: Seq<(usize, Real)>) -> Waiting
    decreases entries.len(),
{
    if entries.len() == 0 {
        waiting
    } else {
        let before = unlocks_noted(waiting, entries.drop_last());
        Waiting {
            unlocked_columns: queues::scheduled(before.unlocked_columns, entries.last().0),
            ..before
        }
    }
}

/// The queues after the first `n` updated rows are noted.
pub open spec fn updates_noted(
    waiting: Waiting,
    updates: Seq<RowUpdate>,
    a: Map<(int, int), Real>,
    n: nat,
) -> Waiting
    decreases n,
{
    if n == 0 {
        waiting
    } else {
        let before = updates_noted(waiting, updates, a, (n - 1) as nat);
        let (row, entries, domain) = updates[n - 1];
        model::row_noted(unlocks_noted(before, entries@), row, domain, a)
    }
}

/// A matrix with one row replaced.
spec fn with_row(
    matrix: Map<(int, int), Real>,
    row: int,
    entries: Seq<(usize, Real)>,
) -> Map<(int, int), Real> {
    Map::new(
        |p: (int, int)|
            if p.0 == row {
                exists|a: int| 0 <= a < entries.len() && (#[trigger] entries[a]).0 == p.1
            } else {
                matrix.contains_key(p)
            },
        |p: (int, int)|
            if p.0 == row {
                entries[choose|a: int| 0 <= a < entries.len() && (#[trigger] entries[a]).0 == p.1].1
            } else {
                matrix[p]
            },
    )
}

proof fn with_row_replaces(
    matrix: Map<(int, int), Real>,
    row: int,
    entries: Seq<(usize, Real)>,
)
    requires
        forall|a: int, b: int|
            0 <= a < b < entries.len() ==> (#[trigger] entries[a]).0 < (#[trigger] entries[b]).0,
    ensures
        linked::row_replaced(with_row(matrix, row, entries), matrix, row, entries),
{
    let new = with_row(matrix, row, entries);
    assert forall|a: int| 0 <= a < entries.len() implies {
        &&& new.contains_key(linked::place(false, row, (#[trigger] entries[a]).0 as int))
        &&& new[linked::place(false, row, entries[a].0 as int)] == entries[a].1
    } by {
        let k = entries[a].0;
        let b = choose|b: int| 0 <= b < entries.len() && (#[trigger] entries[b]).0 == k;
        assert(entries[b].0 == k);
        if a < b {
            assert(entries[a].0 < entries[b].0);
        } else if b < a {
            assert(entries[b].0 < entries[a].0);
        }
    }
}

/// A row listing depends on that row alone.
proof fn listing_follows_row(
    entries: Seq<(usize, Real)>,
    m0: Map<(int, int), Real>,
    m1: Map<(int, int), Real>,
    row: int,
)
    requires
        linked::lists_line(entries, m0, false, row),
        forall|j: int|
            {
                &&& (#[trigger] m1.contains_key((row, j)) <==> m0.contains_key((row, j)))
                &&& m1.contains_key((row, j)) ==> m1[(row, j)] == m0[(row, j)]
            },
    ensures
        linked::lists_line(entries, m1, false, row),
{
    assert forall|a: int| 0 <= a < entries.len() implies {
        &&& m1.contains_key(linked::place(false, row, (#[trigger] entries[a]).0 as int))
        &&& m1[linked::place(false, row, entries[a].0 as int)] == entries[a].1
    } by {
        assert(m0.contains_key(linked::place(false, row, entries[a].0 as int)));
        assert(m1.contains_key((row, entries[a].0 as int)));
    }
    assert forall|k: int| #[trigger] m1.contains_key(linked::place(false, row, k)) implies exists|
        a: int,
    | 0 <= a < entries.len() && (#[trigger] entries[a]).0 == k by {
        assert(m1.contains_key((row, k)));
        assert(m0.contains_key(linked::place(false, row, k)));
    }
}

/// The matrix after the first `n` updates.
spec fn stage(start: Map<(int, int), Real>, updates: Seq<RowUpdate>, n: nat) -> Map<
    (int, int),
    Real,
>
    decreases n,
{
    if n == 0 {
        start
    } else {
        with_row(
            stage(start, updates, (n - 1) as nat),
            updates[n - 1].0 as int,
            updates[n - 1].1@,
        )
    }
}

proof fn stage_reads(
    start: Map<(int, int), Real>,
    updates: Seq<RowUpdate>,
    rows: nat,
    columns: nat,
    n: nat,
)
    requires
        applicable(updates, rows, columns),
        n <= updates.len(),
    ensures
        forall|u: int|
            0 <= u < n ==> linked::lists_line(
                (#[trigger] updates[u]).1@,
                stage(start, updates, n),
                false,
                updates[u].0 as int,
            ),
        forall|i: int, j: int|
            !names_row(updates, n as int, i) ==> {
                &&& (#[trigger] stage(start, updates, n).contains_key((i, j))
                    <==> start.contains_key((i, j)))
                &&& stage(start, updates, n).contains_key((i, j)) ==> stage(start, updates, n)[(
                    i,
                    j,
                )] == start[(i, j)]
            },
    decreases n,
{
    if n > 0 {
        let before = stage(start, updates, (n - 1) as nat);
        let after = stage(start, updates, n);
        let (row, entries, _) = updates[n - 1];
        stage_reads(start, updates, rows, columns, (n - 1) as nat);
        assert(linked::sorted_entries(updates[n - 1].1@, columns));
        with_row_replaces(before, row as int, entries@);
        assert forall|u: int| 0 <= u < n implies linked::lists_line(
            (#[trigger] updates[u]).1@,
            after,
            false,
            updates[u].0 as int,
        ) by {
            if u < n - 1 {
                assert(updates[u].0 != updates[n - 1].0);
                listing_follows_row(updates[u].1@, before, after, updates[u].0 as int);
            }
        }
        assert forall|i: int, j: int| !names_row(updates, n as int, i) implies {
            &&& (#[trigger] after.contains_key((i, j)) <==> start.contains_key((i, j)))
            &&& after.contains_key((i, j)) ==> after[(i, j)] == start[(i, j)]
        } by {
            assert(updates[n - 1].0 == row);
            assert(!names_row(updates, n - 1, i)) by {
                if names_row(updates, n - 1, i) {
                    let u = choose|u: int| 0 <= u < n - 1 && (#[trigger] updates[u]).0 == i;
                    assert(updates[u].0 == i);
                }
            }
            assert(before.contains_key((i, j)) <==> start.contains_key((i, j)));
        }
    }
}

proof fn same_matrix(
    left: Map<(int, int), Real>,
    right: Map<(int, int), Real>,
    start: Map<(int, int), Real>,
    updates: Seq<RowUpdate>,
)
    requires
        updated_matrix(left, start, updates),
        updated_matrix(right, start, updates),
    ensures
        left == right,
{
    assert forall|i: int, j: int|
        #![trigger left.contains_key((i, j))]
        #![trigger right.contains_key((i, j))]
        (left.contains_key((i, j)) <==> right.contains_key((i, j))) && (left.contains_key((i, j))
            ==> left[(i, j)] == right[(i, j)]) by {
        if names_row(updates, updates.len() as int, i) {
            let u = choose|u: int| 0 <= u < updates.len() && (#[trigger] updates[u]).0 == i;
            row_agrees(left, right, updates[u].1@, i, j);
        }
    }
    assert forall|p: (int, int)| left.contains_key(p) <==> right.contains_key(p) by {
        assert(p == (p.0, p.1));
        assert(left.contains_key((p.0, p.1)) <==> right.contains_key((p.0, p.1)));
    }
    assert forall|p: (int, int)| left.contains_key(p) implies left[p] == right[p] by {
        assert(p == (p.0, p.1));
        assert(left.contains_key((p.0, p.1)));
    }
    assert(left =~= right);
}

proof fn row_agrees(
    left: Map<(int, int), Real>,
    right: Map<(int, int), Real>,
    entries: Seq<(usize, Real)>,
    i: int,
    j: int,
)
    requires
        linked::lists_line(entries, left, false, i),
        linked::lists_line(entries, right, false, i),
    ensures
        left.contains_key((i, j)) <==> right.contains_key((i, j)),
        left.contains_key((i, j)) ==> left[(i, j)] == right[(i, j)],
{
    assert(linked::place(false, i, j) == (i, j));
    if left.contains_key((i, j)) {
        assert(left.contains_key(linked::place(false, i, j)));
        let a = choose|a: int| 0 <= a < entries.len() && (#[trigger] entries[a]).0 == j;
        assert(right.contains_key(linked::place(false, i, entries[a].0 as int)));
    }
    if right.contains_key((i, j)) {
        assert(right.contains_key(linked::place(false, i, j)));
        let a = choose|a: int| 0 <= a < entries.len() && (#[trigger] entries[a]).0 == j;
        assert(left.contains_key(linked::place(false, i, entries[a].0 as int)));
    }
}

proof fn domains_read(rows: Seq<RowDomain>, updates: Seq<RowUpdate>, n: nat, i: int)
    requires
        n <= updates.len(),
        forall|u: int| 0 <= u < updates.len() ==> (#[trigger] updates[u]).0 < rows.len(),
        forall|u: int, v: int|
            0 <= u < v < updates.len() ==> (#[trigger] updates[u]).0 != (#[trigger] updates[v]).0,
        0 <= i < rows.len(),
    ensures
        updated_domains(rows, updates, n).len() == rows.len(),
        !names_row(updates, n as int, i) ==> updated_domains(rows, updates, n)[i] == rows[i],
        forall|u: int|
            0 <= u < n && (#[trigger] updates[u]).0 == i ==> updated_domains(rows, updates, n)[i]
                == updates[u].2,
    decreases n,
{
    if n > 0 {
        domains_read(rows, updates, (n - 1) as nat, i);
        assert(updates[n - 1].0 < rows.len());
        if !names_row(updates, n as int, i) {
            assert(updates[n - 1].0 != i);
            assert(!names_row(updates, n - 1, i)) by {
                if names_row(updates, n - 1, i) {
                    let u = choose|u: int| 0 <= u < n - 1 && (#[trigger] updates[u]).0 == i;
                    assert(updates[u].0 == i);
                }
            }
        }
        assert forall|u: int| 0 <= u < n && (#[trigger] updates[u]).0 == i implies updated_domains(
            rows,
            updates,
            n,
        )[i] == updates[u].2 by {
            if u < n - 1 {
                assert(updates[u].0 != updates[n - 1].0);
            }
        }
    }
}

pub(crate) fn copy_entries(entries: &Entries) -> (copy: Entries)
    ensures
        copy@ == entries@,
{
    let mut copy: Entries = Vec::with_capacity(entries.len());
    let mut k: usize = 0;
    while k < entries.len()
        invariant
            k <= entries@.len(),
            copy@ == entries@.take(k as int),
        decreases entries@.len() - k,
    {
        copy.push(entries[k]);
        k = k + 1;
        assert(copy@ =~= entries@.take(k as int));
    }
    assert(copy@ =~= entries@);
    copy
}

impl Model {
    /// Move the locks and set the domains of all updates; the matrix is not touched yet.
    fn update_domains(&mut self, updates: &Vec<RowUpdate>)
        requires
            old(self).wf(),
            applicable(updates@, old(self).rows@.len(), old(self).a.column_count()),
        ensures
            *final(self) == (Model {
                locks: final(self).locks,
                rows: final(self).rows,
                ..*old(self)
            }),
            final(self).locks@.len() == old(self).locks@.len(),
            final(self).rows@ == updated_domains(
                old(self).rows@,
                updates@,
                updates@.len(),
            ),
            final(self).rows@.len() == old(self).rows@.len(),
            model::locks_count(
                final(self).locks@,
                stage(old(self).a@, updates@, updates@.len()),
                final(self).rows@,
            ),
    {
        let ghost start = *self;
        let ghost columns = self.a.column_count();
        let mut u: usize = 0;
        proof {
            start.a.stored_positions();
        }
        while u < updates.len()
            invariant
                start.wf(),
                u <= updates@.len(),
                columns == start.a.column_count(),
                start.rows@.len() < NONE,
                applicable(updates@, start.rows@.len(), columns),
                *self == (Model { locks: self.locks, rows: self.rows, ..start }),
                self.locks@.len() == start.locks@.len(),
                self.rows@.len() == start.rows@.len(),
                self.rows@ == updated_domains(start.rows@, updates@, u as nat),
                model::within_rows(stage(start.a@, updates@, u as nat), start.rows@.len()),
                model::locks_count(
                    self.locks@,
                    stage(start.a@, updates@, u as nat),
                    self.rows@,
                ),
            decreases updates@.len() - u,
        {
            let row: usize = updates[u].0;
            let domain = updates[u].2;
            assert(updates@[u as int].0 < start.rows@.len());
            let saved = self.a.row(row).to_vec();
            let before = self.rows[row];
            let ghost m0 = stage(start.a@, updates@, u as nat);
            let ghost m1 = stage(start.a@, updates@, (u + 1) as nat);
            proof {
                stage_reads(start.a@, updates@, start.rows@.len(), columns, u as nat);
                assert(!names_row(updates@, u as int, row as int));
                listing_follows_row(saved@, start.a@, m0, row as int);
                with_row_replaces(m0, row as int, updates@[u as int].1@);
                start.a.stored_positions();
                assert forall|k: int| 0 <= k < saved@.len() implies (#[trigger] saved@[k]).0
                    < self.locks@.len() by {
                    assert(start.a@.contains_key(
                        linked::place(false, row as int, saved@[k].0 as int),
                    ));
                    assert(start.a@.contains_key((row as int, saved@[k].0 as int)));
                }
            }
            model::move_locks(
                &mut self.locks,
                &saved,
                before,
                &updates[u].1,
                domain,
                Ghost(m0),
                Ghost(m1),
                Ghost(self.rows@),
                Ghost(row as int),
            );
            self.rows.set(row, domain);
            u = u + 1;
        }
    }

    /// Replace several distinct rows in one step.
    pub fn replace_rows_batch(&mut self, updates: &Vec<RowUpdate>) -> (touched: Vec<usize>)
        requires
            old(self).wf(),
            applicable(updates@, old(self).rows@.len(), old(self).a.column_count()),
            old(self).a@.dom().len() + assembly::total_entries(row_entries(updates@)) <= NONE,
            old(self).revision + updates@.len() <= usize::MAX,
        ensures
            final(self).wf(),
            updated_matrix(final(self).a@, old(self).a@, updates@),
            final(self).a.row_count() == old(self).a.row_count(),
            final(self).a.column_count() == old(self).a.column_count(),
            final(self).rows@ == updated_domains(old(self).rows@, updates@, updates@.len()),
            final(self).bounds@ == old(self).bounds@,
            final(self).alive@ == old(self).alive@,
            final(self).revision == old(self).revision + updates@.len(),
            final(self).tape@ == old(self).tape@,
            final(self).cones@ == old(self).cones@,
            final(self).cone_rows@ == old(self).cone_rows@,
            order::strictly_ascending(touched@),
            forall|k: usize| #[trigger]
                touched@.contains(k) <==> exists|u: int|
                    0 <= u < updates@.len() && linked::changes(
                        old(self).a@,
                        final(self).a@,
                        (#[trigger] updates@[u]).0 as int,
                        k as int,
                    ),
            final(self).queues@ == updates_noted(
                touched_noted(old(self).queues@, touched@, old(self).alive@, final(self).a@),
                updates@,
                final(self).a@,
                updates@.len(),
            ),
    {
        let ghost start = *self;
        self.update_domains(updates);
        let mut edits: Vec<(usize, Entries)> = Vec::new();
        let mut u: usize = 0;
        while u < updates.len()
            invariant
                u <= updates@.len(),
                edits@.len() == u,
                forall|v: int|
                    0 <= v < u ==> (#[trigger] edits@[v]).0 == updates@[v].0 && edits@[v].1@
                        == updates@[v].1@,
            decreases updates@.len() - u,
        {
            edits.push((updates[u].0, copy_entries(&updates[u].1)));
            u = u + 1;
        }
        proof {
            total_follows_views(edits@, row_entries(updates@));
            assert forall|v: int| 0 <= v < edits@.len() implies {
                &&& (#[trigger] edits@[v]).0 < self.a.row_count()
                &&& linked::sorted_entries(edits@[v].1@, self.a.column_count())
            } by {
                assert(updates@[v].0 < start.rows@.len());
            }
            assert forall|v: int, w: int| 0 <= v < w < edits@.len() implies (
            #[trigger] edits@[v]).0 != (#[trigger] edits@[w]).0 by {
                assert(updates@[v].0 != updates@[w].0);
            }
        }
        let touched = self.a.replace_rows(&edits);
        proof {
            assert forall|v: int| 0 <= v < updates@.len() implies linked::lists_line(
                (#[trigger] updates@[v]).1@,
                self.a@,
                false,
                updates@[v].0 as int,
            ) by {
                assert(edits@[v].0 == updates@[v].0);
                assert(linked::lists_line(edits@[v].1@, self.a@, false, edits@[v].0 as int));
            }
            assert forall|i: int| #[trigger] names_row(
                updates@,
                updates@.len() as int,
                i,
            ) <==> assembly::updates_row(edits@, edits@.len() as int, i) by {
                if names_row(updates@, updates@.len() as int, i) {
                    let v = choose|v: int|
                        0 <= v < updates@.len() && (#[trigger] updates@[v]).0 == i;
                    assert(edits@[v].0 == i);
                }
                if assembly::updates_row(edits@, edits@.len() as int, i) {
                    let v = choose|v: int| 0 <= v < edits@.len() && (#[trigger] edits@[v]).0 == i;
                    assert(updates@[v].0 == i);
                }
            }
            assert(updated_matrix(self.a@, start.a@, updates@));
            stage_reads(
                start.a@,
                updates@,
                start.rows@.len(),
                start.a.column_count(),
                updates@.len(),
            );
            same_matrix(
                self.a@,
                stage(start.a@, updates@, updates@.len()),
                start.a@,
                updates@,
            );
            assert forall|k: usize| #[trigger] touched@.contains(k) <==> exists|u: int|
                0 <= u < updates@.len() && linked::changes(
                    start.a@,
                    self.a@,
                    (#[trigger] updates@[u]).0 as int,
                    k as int,
                ) by {
                if touched@.contains(k) {
                    let v = choose|v: int|
                        0 <= v < edits@.len() && linked::changes(
                            start.a@,
                            self.a@,
                            (#[trigger] edits@[v]).0 as int,
                            k as int,
                        );
                    assert(updates@[v].0 == edits@[v].0);
                }
                if exists|u: int|
                    0 <= u < updates@.len() && linked::changes(
                        start.a@,
                        self.a@,
                        (#[trigger] updates@[u]).0 as int,
                        k as int,
                    ) {
                    let v = choose|u: int|
                        0 <= u < updates@.len() && linked::changes(
                            start.a@,
                            self.a@,
                            (#[trigger] updates@[u]).0 as int,
                            k as int,
                        );
                    assert(edits@[v].0 == updates@[v].0);
                }
            }
            assert forall|i: int| 0 <= i < self.rows@.len() implies ((
            #[trigger] self.rows@[i]) matches RowDomain::Cone { block, .. } ==> block
                < usize::MAX) by {
                domains_read(start.rows@, updates@, updates@.len(), i);
                assert(start.rows@[i] == start.rows@[i]);
                if names_row(updates@, updates@.len() as int, i) {
                    let v = choose|v: int|
                        0 <= v < updates@.len() && (#[trigger] updates@[v]).0 == i;
                    assert(self.rows@[i] == updates@[v].2);
                }
            }
            self.a.stored_positions();
            assert forall|i: int, j: int| #[trigger] self.a@.contains_key((i, j)) implies !(
            self.rows@[i] is Deleted) by {
                domains_read(start.rows@, updates@, updates@.len(), i);
                if names_row(updates@, updates@.len() as int, i) {
                    let v = choose|v: int|
                        0 <= v < updates@.len() && (#[trigger] updates@[v]).0 == i;
                    assert(self.rows@[i] == updates@[v].2);
                    assert(self.a@.contains_key(linked::place(false, i, j)));
                    assert(updates@[v].1@.len() > 0);
                } else {
                    assert(start.a@.contains_key((i, j)));
                }
            }
            assert(self.wf());
            assert forall|k: int| 0 <= k < touched@.len() implies (#[trigger] touched@[k])
                < self.a.column_count() by {
                assert(touched@.contains(touched@[k]));
                let v = choose|u: int|
                    0 <= u < updates@.len() && linked::changes(
                        start.a@,
                        self.a@,
                        (#[trigger] updates@[u]).0 as int,
                        touched@[k] as int,
                    );
                start.a.stored_positions();
                if self.a@.contains_key((updates@[v].0 as int, touched@[k] as int)) {
                } else {
                    assert(start.a@.contains_key((updates@[v].0 as int, touched@[k] as int)));
                }
            }
        }
        let ghost middle = *self;
        proof {
            assert forall|u: int| 0 <= u < updates@.len() implies middle.rows@[(
            #[trigger] updates@[u]).0 as int] == updates@[u].2 by {
                assert(updates@[u].0 < start.rows@.len());
                domains_read(start.rows@, updates@, updates@.len(), updates@[u].0 as int);
            }
        }
        self.note_touched(&touched);
        self.note_updates(updates, Ghost(middle));
        touched
    }

    fn note_touched(&mut self, touched: &Vec<usize>)
        requires
            old(self).wf(),
            forall|k: int|
                0 <= k < touched@.len() ==> (#[trigger] touched@[k]) < old(self).a.column_count(),
        ensures
            final(self).wf(),
            *final(self) == (Model { queues: final(self).queues, ..*old(self) }),
            final(self).queues@ == touched_noted(
                old(self).queues@,
                touched@,
                old(self).alive@,
                old(self).a@,
            ),
    {
        let mut at: usize = 0;
        proof {
            assert(touched@.take(0) =~= Seq::<usize>::empty());
        }
        while at < touched.len()
            invariant
                at <= touched@.len(),
                old(self).wf(),
                self.wf(),
                *self == (Model { queues: self.queues, ..*old(self) }),
                forall|k: int|
                    0 <= k < touched@.len() ==> (#[trigger] touched@[k]) < self.a.column_count(),
                self.queues@ == touched_noted(
                    old(self).queues@,
                    touched@.take(at as int),
                    old(self).alive@,
                    old(self).a@,
                ),
            decreases touched@.len() - at,
        {
            let j: usize = touched[at];
            proof {
                self.a.stored_positions();
                assert(touched@.take(at + 1).drop_last() =~= touched@.take(at as int));
                assert(touched@.take(at + 1).last() == touched@[at as int]);
            }
            if self.alive[j] {
                let size: usize = self.a.column(j).len();
                self.queues.column_changed(j, size);
            }
            at = at + 1;
        }
        assert(touched@.take(at as int) =~= touched@);
    }

    fn note_unlocks(&mut self, entries: &Entries)
        requires
            old(self).wf(),
            forall|k: int|
                0 <= k < entries@.len() ==> (#[trigger] entries@[k]).0 < old(self).a.column_count(),
        ensures
            final(self).wf(),
            *final(self) == (Model { queues: final(self).queues, ..*old(self) }),
            final(self).queues@ == unlocks_noted(old(self).queues@, entries@),
    {
        let mut at: usize = 0;
        proof {
            assert(entries@.take(0) =~= Seq::<(usize, Real)>::empty());
        }
        while at < entries.len()
            invariant
                at <= entries@.len(),
                old(self).wf(),
                self.wf(),
                *self == (Model { queues: self.queues, ..*old(self) }),
                forall|k: int|
                    0 <= k < entries@.len() ==> (#[trigger] entries@[k]).0 < self.a.column_count(),
                self.queues@ == unlocks_noted(old(self).queues@, entries@.take(at as int)),
            decreases entries@.len() - at,
        {
            proof {
                self.a.stored_positions();
                assert(entries@.take(at + 1).drop_last() =~= entries@.take(at as int));
                assert(entries@.take(at + 1).last() == entries@[at as int]);
            }
            self.queues.unlocked_columns.push(entries[at].0);
            at = at + 1;
            assert(self.queues@ =~= unlocks_noted(old(self).queues@, entries@.take(at as int)));
        }
        assert(entries@.take(at as int) =~= entries@);
    }

    fn note_updates(&mut self, updates: &Vec<RowUpdate>, Ghost(start): Ghost<Model>)
        requires
            old(self).wf(),
            start.wf(),
            *old(self) == (Model { queues: old(self).queues, ..start }),
            applicable(updates@, start.rows@.len(), start.a.column_count()),
            forall|u: int|
                0 <= u < updates@.len() ==> start.rows@[(#[trigger] updates@[u]).0 as int]
                    == updates@[u].2,
            old(self).revision + updates@.len() <= usize::MAX,
        ensures
            final(self).wf(),
            final(self).a == start.a,
            final(self).rows@ == start.rows@,
            final(self).bounds@ == start.bounds@,
            final(self).alive@ == start.alive@,
            final(self).locks@ == start.locks@,
            final(self).revision == start.revision + updates@.len(),
            final(self).tape@ == start.tape@,
            final(self).cones@ == start.cones@,
            final(self).cone_rows@ == start.cone_rows@,
            final(self).queues@ == updates_noted(
                old(self).queues@,
                updates@,
                start.a@,
                updates@.len(),
            ),
    {
        let mut u: usize = 0;
        while u < updates.len()
            invariant
                u <= updates@.len(),
                self.wf(),
                applicable(updates@, start.rows@.len(), start.a.column_count()),
                forall|u: int|
                    0 <= u < updates@.len() ==> start.rows@[(#[trigger] updates@[u]).0 as int]
                        == updates@[u].2,
                self.a == start.a,
                self.rows@ == start.rows@,
                self.bounds@ == start.bounds@,
                self.alive@ == start.alive@,
                self.locks@ == start.locks@,
                self.revision == start.revision + u,
                start.revision + updates@.len() <= usize::MAX,
                self.tape@ == start.tape@,
                self.cones@ == start.cones@,
                self.cone_rows@ == start.cone_rows@,
                self.queues@ == updates_noted(
                    old(self).queues@,
                    updates@,
                    start.a@,
                    u as nat,
                ),
            decreases updates@.len() - u,
        {
            assert(updates@[u as int].0 < start.rows@.len());
            assert(linked::sorted_entries(updates@[u as int].1@, start.a.column_count()));
            self.note_unlocks(&updates[u].1);
            self.changed_row(updates[u].0);
            self.revision = self.revision + 1;
            u = u + 1;
        }
    }

    /// Remove a column that nothing stops in a direction the objective does not
    /// resist. Its rows can always be satisfied, so they go with it.
    pub fn remove_unlocked(&mut self, column: usize)
        requires
            old(self).wf(),
            column < old(self).bounds@.len(),
            old(self).a@.dom().len() <= NONE,
            old(self).revision + old(self).rows@.len() + 1 <= usize::MAX,
            forall|i: int| #[trigger]
                old(self).a@.contains_key((i, column as int)) ==> old(self).rows@[i] is Linear,
        ensures
            final(self).wf(),
            forall|i: int, j: int| #[trigger]
                final(self).a@.contains_key((i, j)) <==> old(self).a@.contains_key((i, j)) && !old(
                    self,
                ).a@.contains_key((i, column as int)),
            forall|i: int, j: int| #[trigger]
                final(self).a@.contains_key((i, j)) ==> final(self).a@[(i, j)] == old(self).a@[(
                    i,
                    j,
                )],
            final(self).rows@.len() == old(self).rows@.len(),
            forall|i: int|
                0 <= i < final(self).rows@.len() ==> #[trigger] final(self).rows@[i] == (if old(
                    self,
                ).a@.contains_key((i, column as int)) {
                    RowDomain::Deleted
                } else {
                    old(self).rows@[i]
                }),
            final(self).bounds@ == old(self).bounds@,
            final(self).alive@ == old(self).alive@.update(column as int, false),
            final(self).tape@.len() == old(self).tape@.len() + 1,
            final(self).tape@.drop_last() == old(self).tape@,
            final(self).tape@.last() matches Rule::Unlocked { column: c, bounds: b, rows } && c
                == column && b == old(self).bounds@[column as int] && forall|k: int|
                0 <= k < rows@.len() ==> {
                    &&& old(self).rows@[(#[trigger] rows@[k]).row as int] == RowDomain::Linear(
                        rows@[k].bounds,
                    )
                    &&& linked::lists_line(
                        rows@[k].entries@,
                        old(self).a@,
                        false,
                        rows@[k].row as int,
                    )
                    &&& old(self).a@.contains_key((rows@[k].row as int, column as int))
                },
    {
        let ghost start = *self;
        let ghost c = column as int;
        let column_entries = self.a.column(column).to_vec();
        let mut equations: Vec<Equation> = Vec::new();
        let mut at: usize = 0;
        proof {
            self.a.stored_positions();
            linked::listed_length(column_entries@, self.a@, true, c);
            let range = vstd::set_lib::set_int_range(0, self.rows@.len() as int);
            vstd::set_lib::lemma_int_range(0, self.rows@.len() as int);
            let hit = linked::line_items(self.a@, true, c);
            assert forall|i: int| hit.contains(i) implies range.contains(i) by {
                assert(linked::place(true, c, i) == (i, c));
                assert(self.a@.contains_key((i, c)));
            }
            assert(hit.subset_of(range));
            vstd::set_lib::lemma_len_subset(hit, range);
            assert forall|k: int| 0 <= k < column_entries@.len() implies {
                &&& (#[trigger] column_entries@[k]).0 < self.rows@.len()
                &&& self.a@.contains_key((column_entries@[k].0 as int, c))
                &&& self.rows@[column_entries@[k].0 as int] is Linear
            } by {
                assert(self.a@.contains_key(linked::place(true, c, column_entries@[k].0 as int)));
                assert(self.a@.contains_key((column_entries@[k].0 as int, c)));
            }
        }
        while at < column_entries.len()
            invariant
                at <= column_entries@.len(),
                self.wf(),
                *self == start,
                equations@.len() == at,
                forall|k: int|
                    0 <= k < column_entries@.len() ==> {
                        &&& (#[trigger] column_entries@[k]).0 < start.rows@.len()
                        &&& start.a@.contains_key((column_entries@[k].0 as int, c))
                        &&& start.rows@[column_entries@[k].0 as int] is Linear
                    },
                forall|k: int|
                    0 <= k < at ==> {
                        &&& (#[trigger] equations@[k]).row == column_entries@[k].0
                        &&& start.rows@[equations@[k].row as int] == RowDomain::Linear(
                            equations@[k].bounds,
                        )
                        &&& linked::lists_line(
                            equations@[k].entries@,
                            start.a@,
                            false,
                            equations@[k].row as int,
                        )
                    },
            decreases column_entries@.len() - at,
        {
            match self.equation(column_entries[at].0) {
                Some(equation) => {
                    equations.push(equation);
                },
                None => {
                    assert(start.rows@[column_entries@[at as int].0 as int] is Linear);
                },
            }
            at = at + 1;
        }
        self.alive.set(column, false);
        let mut k: usize = 0;
        while k < column_entries.len()
            invariant
                k <= column_entries@.len(),
                column_entries@.len() <= start.rows@.len(),
                start.revision + start.rows@.len() + 1 <= usize::MAX,
                start.a@.dom().len() <= NONE,
                self.wf(),
                self.rows@.len() == start.rows@.len(),
                self.bounds@ == start.bounds@,
                self.alive@ == start.alive@.update(c, false),
                self.tape@ == start.tape@,
                self.revision == start.revision + k,
                self.a@.dom().len() <= start.a@.dom().len(),
                forall|a: int|
                    0 <= a < column_entries@.len() ==> (#[trigger] column_entries@[a]).0
                        < start.rows@.len(),
                forall|i: int, j: int| #[trigger]
                    self.a@.contains_key((i, j)) <==> start.a@.contains_key((i, j)) && !row_listed(
                        column_entries@,
                        k as int,
                        i,
                    ),
                forall|i: int, j: int| #[trigger]
                    self.a@.contains_key((i, j)) ==> self.a@[(i, j)] == start.a@[(i, j)],
                forall|i: int|
                    0 <= i < self.rows@.len() ==> #[trigger] self.rows@[i] == (if row_listed(
                        column_entries@,
                        k as int,
                        i,
                    ) {
                        RowDomain::Deleted
                    } else {
                        start.rows@[i]
                    }),
            decreases column_entries@.len() - k,
        {
            let row: usize = column_entries[k].0;
            let ghost before = *self;
            self.clear_row(row);
            proof {
                assert(column_entries@[k as int].0 == row);
                assert forall|i: int| #[trigger] row_listed(column_entries@, k + 1, i)
                    <==> row_listed(column_entries@, k as int, i) || i == row by {
                    if row_listed(column_entries@, k as int, i) {
                        let a = choose|a: int|
                            0 <= a < k && (#[trigger] column_entries@[a]).0 == i;
                        assert(column_entries@[a].0 == i);
                    }
                }
                assert forall|i: int, j: int| #[trigger]
                    self.a@.contains_key((i, j)) <==> start.a@.contains_key((i, j)) && !row_listed(
                        column_entries@,
                        k + 1,
                        i,
                    ) by {
                    if i == row {
                        if self.a@.contains_key((i, j)) {
                            assert(self.a@.contains_key(linked::place(false, i, j)));
                        }
                    } else {
                        assert(self.a@.contains_key((i, j)) <==> before.a@.contains_key((i, j)));
                    }
                }
                assert forall|i: int, j: int| #[trigger] self.a@.contains_key((i, j)) implies
                    self.a@[(i, j)] == start.a@[(i, j)] by {
                    if i == row {
                        assert(self.a@.contains_key(linked::place(false, i, j)));
                    } else {
                        assert(before.a@.contains_key((i, j)));
                    }
                }
            }
            k = k + 1;
        }
        let bounds = self.bounds[column];
        proof {
            start.a.stored_positions();
            assert forall|e: int| 0 <= e < equations@.len() implies (
            #[trigger] equations@[e]).fits(start.bounds@.len(), start.rows@.len())
                && equations@[e].stores(column) by {
                assert(start.a@.contains_key(
                    linked::place(true, c, column_entries@[e].0 as int),
                ));
                assert(start.a@.contains_key((column_entries@[e].0 as int, c)));
                tape::line_fits(
                    equations@[e],
                    start.a@,
                    column,
                    start.bounds@.len(),
                    start.rows@.len(),
                );
            }
        }
        self.tape.push(Rule::Unlocked { column, bounds, rows: equations });
        self.revision = self.revision + 1;
        proof {
            assert(self.tape@.drop_last() =~= start.tape@);
            assert forall|i: int| #[trigger] row_listed(
                column_entries@,
                column_entries@.len() as int,
                i,
            ) <==> start.a@.contains_key((i, c)) by {
                assert(linked::place(true, c, i) == (i, c));
                if start.a@.contains_key((i, c)) {
                    assert(start.a@.contains_key(linked::place(true, c, i)));
                    let a = choose|a: int|
                        0 <= a < column_entries@.len() && (#[trigger] column_entries@[a]).0 == i;
                    assert(column_entries@[a].0 == i);
                }
            }
            assert forall|e: int| 0 <= e < equations@.len() implies {
                &&& start.rows@[(#[trigger] equations@[e]).row as int] == RowDomain::Linear(
                    equations@[e].bounds,
                )
                &&& linked::lists_line(
                    equations@[e].entries@,
                    start.a@,
                    false,
                    equations@[e].row as int,
                )
                &&& start.a@.contains_key((equations@[e].row as int, c))
            } by {
                assert(start.a@.contains_key((column_entries@[e].0 as int, c)));
            }
        }
    }
}

spec fn row_listed(entries: Seq<(usize, Real)>, n: int, i: int) -> bool {
    exists|a: int| 0 <= a < n && (#[trigger] entries[a]).0 == i
}

proof fn total_follows_views(left: Seq<(usize, Entries)>, right: Seq<(usize, Entries)>)
    requires
        left.len() == right.len(),
        forall|u: int| 0 <= u < left.len() ==> (#[trigger] left[u]).1@ == right[u].1@,
    ensures
        assembly::total_entries(left) == assembly::total_entries(right),
    decreases left.len(),
{
    if left.len() > 0 {
        assert(left[left.len() - 1].1@ == right[left.len() - 1].1@);
        assert forall|u: int| 0 <= u < left.drop_last().len() implies (
        #[trigger] left.drop_last()[u]).1@ == right.drop_last()[u].1@ by {
            assert(left[u].1@ == right[u].1@);
        }
        total_follows_views(left.drop_last(), right.drop_last());
    }
}

} // verus!
