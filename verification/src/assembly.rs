//! Building a matrix from its columns and replacing many rows at once.

use crate::linked::{self, Entries, LinkedMatrix, NONE};
use crate::number::Real;
use vstd::prelude::*;

verus! {

/// Row `row` of `cur` holds the first `e` entries below column `from` and is
/// still that of `start` from there on; the other rows are those of `start`.
#[verifier::opaque]
spec fn settled(
    cur: Map<(int, int), Real>,
    start: Map<(int, int), Real>,
    row: int,
    entries: Seq<(usize, Real)>,
    e: int,
    from: int,
) -> bool {
    &&& linked::same_outside_row(cur, start, row)
    &&& forall|k: int|
        k >= from ==> {
            &&& (#[trigger] cur.contains_key((row, k)) <==> start.contains_key((row, k)))
            &&& cur.contains_key((row, k)) ==> cur[(row, k)] == start[(row, k)]
        }
    &&& forall|k: int|
        k < from && #[trigger] cur.contains_key((row, k)) ==> exists|a: int|
            0 <= a < e && (#[trigger] entries[a]).0 == k
    &&& forall|a: int|
        0 <= a < e ==> {
            &&& (#[trigger] entries[a]).0 < from
            &&& cur.contains_key((row, entries[a].0 as int))
            &&& cur[(row, entries[a].0 as int)] == entries[a].1
        }
}

/// `touched` grew by the columns below `from` whose coefficient in `row` changed.
#[verifier::opaque]
spec fn tracked_to(
    touched: Seq<usize>,
    touched0: Seq<usize>,
    start: Map<(int, int), Real>,
    cur: Map<(int, int), Real>,
    row: int,
    from: int,
) -> bool {
    forall|k: usize| #[trigger]
        touched.contains(k) <==> touched0.contains(k) || (k < from && linked::changes(
            start,
            cur,
            row,
            k as int,
        ))
}

proof fn drop_item(
    cur: Map<(int, int), Real>,
    start: Map<(int, int), Real>,
    row: int,
    entries: Seq<(usize, Real)>,
    e: int,
    from: int,
    key: int,
)
    requires
        settled(cur, start, row, entries, e, from),
        from <= key,
        cur.contains_key((row, key)),
        forall|k: int| #[trigger] cur.contains_key((row, k)) ==> k < from || k >= key,
    ensures
        settled(cur.remove((row, key)), start, row, entries, e, key + 1),
        start.contains_key((row, key)),
        start[(row, key)] == cur[(row, key)],
        forall|k: int| #[trigger] start.contains_key((row, k)) ==> k < from || k >= key,
{
    reveal(settled);
    let less = cur.remove((row, key));
    assert forall|k: int| #[trigger] start.contains_key((row, k)) implies k < from || k >= key by {
        if k >= from {
            assert(cur.contains_key((row, k)));
        }
    }
    assert forall|i: int, j: int| i != row implies {
        &&& (#[trigger] less.contains_key((i, j)) <==> start.contains_key((i, j)))
        &&& less.contains_key((i, j)) ==> less[(i, j)] == start[(i, j)]
    } by {
        assert(cur.contains_key((i, j)) <==> start.contains_key((i, j)));
    }
    assert forall|k: int| k >= key + 1 implies {
        &&& (#[trigger] less.contains_key((row, k)) <==> start.contains_key((row, k)))
        &&& less.contains_key((row, k)) ==> less[(row, k)] == start[(row, k)]
    } by {
        assert(cur.contains_key((row, k)) <==> start.contains_key((row, k)));
    }
    assert forall|k: int| k < key + 1 && #[trigger] less.contains_key((row, k)) implies exists|
        a: int,
    | 0 <= a < e && (#[trigger] entries[a]).0 == k by {
        assert(cur.contains_key((row, k)));
        assert(k < from);
    }
}

proof fn put_item(
    cur: Map<(int, int), Real>,
    start: Map<(int, int), Real>,
    row: int,
    entries: Seq<(usize, Real)>,
    e: int,
    from: int,
)
    requires
        settled(cur, start, row, entries, e, from),
        0 <= e < entries.len(),
        from <= entries[e].0,
        forall|k: int| #[trigger]
            cur.contains_key((row, k)) ==> k < from || k >= entries[e].0,
    ensures
        settled(
            cur.insert((row, entries[e].0 as int), entries[e].1),
            start,
            row,
            entries,
            e + 1,
            entries[e].0 + 1,
        ),
        forall|k: int| #[trigger]
            start.contains_key((row, k)) ==> k < from || k >= entries[e].0,
        cur.contains_key((row, entries[e].0 as int)) <==> start.contains_key(
            (row, entries[e].0 as int),
        ),
        cur.contains_key((row, entries[e].0 as int)) ==> cur[(row, entries[e].0 as int)]
            == start[(row, entries[e].0 as int)],
{
    reveal(settled);
    let key = entries[e].0 as int;
    let more = cur.insert((row, key), entries[e].1);
    assert forall|k: int| #[trigger] start.contains_key((row, k)) implies k < from || k >= key by {
        if k >= from {
            assert(cur.contains_key((row, k)));
        }
    }
    assert(cur.contains_key((row, key)) <==> start.contains_key((row, key)));
    assert forall|i: int, j: int| i != row implies {
        &&& (#[trigger] more.contains_key((i, j)) <==> start.contains_key((i, j)))
        &&& more.contains_key((i, j)) ==> more[(i, j)] == start[(i, j)]
    } by {
        assert(cur.contains_key((i, j)) <==> start.contains_key((i, j)));
    }
    assert forall|k: int| k >= key + 1 implies {
        &&& (#[trigger] more.contains_key((row, k)) <==> start.contains_key((row, k)))
        &&& more.contains_key((row, k)) ==> more[(row, k)] == start[(row, k)]
    } by {
        assert(cur.contains_key((row, k)) <==> start.contains_key((row, k)));
    }
    assert forall|k: int| k < key + 1 && #[trigger] more.contains_key((row, k)) implies exists|
        a: int,
    | 0 <= a < e + 1 && (#[trigger] entries[a]).0 == k by {
        if k == key {
            assert(entries[e].0 == k);
        } else {
            assert(cur.contains_key((row, k)));
            assert(k < from);
            let a = choose|a: int| 0 <= a < e && (#[trigger] entries[a]).0 == k;
            assert(entries[a].0 == k);
        }
    }
}

proof fn track_item(
    touched: Seq<usize>,
    touched0: Seq<usize>,
    start: Map<(int, int), Real>,
    cur: Map<(int, int), Real>,
    cur2: Map<(int, int), Real>,
    row: int,
    from: int,
    key: usize,
)
    requires
        tracked_to(touched, touched0, start, cur, row, from),
        from <= key,
        cur2 == cur.remove((row, key as int)) || exists|v: Real|
            cur2 == #[trigger] cur.insert((row, key as int), v),
        forall|k: int| #[trigger] start.contains_key((row, k)) ==> k < from || k >= key,
        forall|k: int| #[trigger] cur.contains_key((row, k)) ==> k < from || k >= key,
    ensures
        tracked_to(
            if linked::changes(start, cur2, row, key as int) {
                touched.push(key)
            } else {
                touched
            },
            touched0,
            start,
            cur2,
            row,
            key + 1,
        ),
{
    reveal(tracked_to);
    let next = if linked::changes(start, cur2, row, key as int) {
        touched.push(key)
    } else {
        touched
    };
    assert forall|k: usize| #[trigger] next.contains(k) <==> touched0.contains(k) || (k < key + 1
        && linked::changes(start, cur2, row, k as int)) by {
        assert(touched.contains(k) <==> touched0.contains(k) || (k < from && linked::changes(
            start,
            cur,
            row,
            k as int,
        )));
        if linked::changes(start, cur2, row, key as int) {
            assert(next[touched.len() as int] == key);
            if touched.contains(k) {
                let i = choose|i: int| 0 <= i < touched.len() && touched[i] == k;
                assert(next[i] == k);
            }
        }
        if k != key {
            assert(cur2.contains_key((row, k as int)) == cur.contains_key((row, k as int)));
            if from <= k && k < key {
                assert(!linked::changes(start, cur2, row, k as int));
            } else if k < from {
                assert(linked::changes(start, cur2, row, k as int) == linked::changes(start, cur, row, k as int));
            }
        }
    }
}

proof fn settled_in_full(
    cur: Map<(int, int), Real>,
    start: Map<(int, int), Real>,
    row: int,
    entries: Seq<(usize, Real)>,
    from: int,
    touched: Seq<usize>,
    touched0: Seq<usize>,
)
    requires
        settled(cur, start, row, entries, entries.len() as int, from),
        tracked_to(touched, touched0, start, cur, row, from),
        forall|a: int, b: int|
            0 <= a < b < entries.len() ==> (#[trigger] entries[a]).0 < (#[trigger] entries[b]).0,
        forall|k: int| #[trigger] cur.contains_key((row, k)) ==> k < from,
    ensures
        linked::row_replaced(cur, start, row, entries),
        forall|k: int| #[trigger] start.contains_key((row, k)) ==> k < from,
        forall|k: usize| #[trigger]
            touched.contains(k) <==> touched0.contains(k) || linked::changes(start, cur, row, k as int),
{
    reveal(settled);
    reveal(tracked_to);
    assert forall|k: int| #[trigger] cur.contains_key(linked::place(false, row, k)) implies exists|a: int|
        0 <= a < entries.len() && (#[trigger] entries[a]).0 == k by {
        assert(cur.contains_key((row, k)));
    }
    assert forall|k: int| #[trigger] start.contains_key((row, k)) implies k < from by {
        if k >= from {
            assert(cur.contains_key((row, k)));
        }
    }
    assert forall|k: usize| k >= from implies !#[trigger] linked::changes(start, cur, row, k as int) by {}
}

/// A row's positions written out.
proof fn row_positions(matrix: Map<(int, int), Real>, i: int)
    ensures
        forall|k: int| #[trigger]
            matrix.contains_key(linked::place(false, i, k)) == matrix.contains_key((i, k)),
        forall|k: int| #[trigger] matrix[linked::place(false, i, k)] == matrix[(i, k)],
{
}

proof fn listing_skips(
    entries: Seq<(usize, Real)>,
    matrix: Map<(int, int), Real>,
    axis: bool,
    i: int,
    from: int,
    to: int,
)
    requires
        linked::listed_below(entries, matrix, axis, i, from),
        from <= to,
        forall|k: int| #[trigger] matrix.contains_key(linked::place(axis, i, k)) ==> k < from || k >= to,
    ensures
        linked::listed_below(entries, matrix, axis, i, to),
{
    reveal(linked::listed_below);
}


/// Entries of all updates together.
pub open spec fn total_entries(updates: Seq<(usize, Entries)>) -> nat
    decreases updates.len(),
{
    if updates.len() == 0 {
        0
    } else {
        total_entries(updates.drop_last()) + updates.last().1@.len()
    }
}

/// One of the first `n` updates is for `row`.
pub open spec fn updates_row(updates: Seq<(usize, Entries)>, n: int, row: int) -> bool {
    exists|u: int| 0 <= u < n && (#[trigger] updates[u]).0 == row
}

/// The nonzero entries of a column, in order.
pub open spec fn nonzeros(column: Seq<(usize, Real)>) -> Seq<(usize, Real)> {
    column.filter(|entry: (usize, Real)| !entry.1.zero())
}

/// Nonzero entries of all columns together.
pub open spec fn total_nonzeros(columns: Seq<Entries>) -> nat
    decreases columns.len(),
{
    if columns.len() == 0 {
        0
    } else {
        total_nonzeros(columns.drop_last()) + nonzeros(columns.last()@).len()
    }
}

proof fn total_entries_grows(updates: Seq<(usize, Entries)>, n: int)
    requires
        0 <= n < updates.len(),
    ensures
        total_entries(updates.take(n + 1)) == total_entries(updates.take(n)) + updates[n].1@.len(),
        total_entries(updates.take(n + 1)) <= total_entries(updates),
    decreases updates.len() - n,
{
    assert(updates.take(n + 1).drop_last() =~= updates.take(n));
    if n + 1 < updates.len() {
        total_entries_grows(updates, n + 1);
    } else {
        assert(updates.take(n + 1) =~= updates);
    }
}

proof fn total_nonzeros_grows(columns: Seq<Entries>, n: int)
    requires
        0 <= n < columns.len(),
    ensures
        total_nonzeros(columns.take(n + 1)) == total_nonzeros(columns.take(n)) + nonzeros(
            columns[n]@,
        ).len(),
        total_nonzeros(columns.take(n + 1)) <= total_nonzeros(columns),
    decreases columns.len() - n,
{
    assert(columns.take(n + 1).drop_last() =~= columns.take(n));
    if n + 1 < columns.len() {
        total_nonzeros_grows(columns, n + 1);
    } else {
        assert(columns.take(n + 1) =~= columns);
    }
}

proof fn nonzeros_grow(column: Seq<(usize, Real)>, n: int)
    requires
        0 <= n < column.len(),
    ensures
        nonzeros(column.take(n + 1)) == (if column[n].1.zero() {
            nonzeros(column.take(n))
        } else {
            nonzeros(column.take(n)).push(column[n])
        }),
        nonzeros(column.take(n + 1)).len() <= nonzeros(column).len(),
    decreases column.len() - n,
{
    reveal(Seq::filter);
    assert(column.take(n + 1).drop_last() =~= column.take(n));
    if n + 1 < column.len() {
        nonzeros_grow(column, n + 1);
    } else {
        assert(column.take(n + 1) =~= column);
    }
}

proof fn line_appended(
    entries: Seq<(usize, Real)>,
    matrix: Map<(int, int), Real>,
    j: int,
    row: usize,
    value: Real,
)
    requires
        linked::lists_line(entries, matrix, true, j),
        forall|k: int| #[trigger] matrix.contains_key((k, j)) ==> k < row,
    ensures
        linked::lists_line(
            entries.push((row, value)),
            matrix.insert((row as int, j), value),
            true,
            j,
        ),
{
    let more = entries.push((row, value));
    let grown = matrix.insert((row as int, j), value);
    assert forall|a: int| 0 <= a < entries.len() implies (#[trigger] entries[a]).0 < row by {
        assert(matrix.contains_key(linked::place(true, j, entries[a].0 as int)));
        assert(matrix.contains_key((entries[a].0 as int, j)));
    }
    assert forall|a: int| 0 <= a < more.len() implies {
        &&& grown.contains_key(linked::place(true, j, (#[trigger] more[a]).0 as int))
        &&& grown[linked::place(true, j, more[a].0 as int)] == more[a].1
    } by {
        if a < entries.len() {
            assert(more[a] == entries[a]);
            assert(matrix.contains_key(linked::place(true, j, entries[a].0 as int)));
        }
    }
    assert forall|k: int| #[trigger] grown.contains_key(linked::place(true, j, k)) implies exists|a: int|
        0 <= a < more.len() && (#[trigger] more[a]).0 == k by {
        if k == row {
            assert(more[entries.len() as int].0 == k);
        } else {
            assert(matrix.contains_key(linked::place(true, j, k)));
            let a = choose|a: int| 0 <= a < entries.len() && (#[trigger] entries[a]).0 == k;
            assert(more[a].0 == k);
        }
    }
}

proof fn line_elsewhere(
    entries: Seq<(usize, Real)>,
    matrix: Map<(int, int), Real>,
    j: int,
    p: (int, int),
    value: Real,
)
    requires
        linked::lists_line(entries, matrix, true, j),
        p.1 != j,
    ensures
        linked::lists_line(entries, matrix.insert(p, value), true, j),
{
    let grown = matrix.insert(p, value);
    assert forall|a: int| 0 <= a < entries.len() implies {
        &&& grown.contains_key(linked::place(true, j, (#[trigger] entries[a]).0 as int))
        &&& grown[linked::place(true, j, entries[a].0 as int)] == entries[a].1
    } by {
        assert(matrix.contains_key(linked::place(true, j, entries[a].0 as int)));
    }
    assert forall|k: int| #[trigger] grown.contains_key(linked::place(true, j, k)) implies exists|a: int|
        0 <= a < entries.len() && (#[trigger] entries[a]).0 == k by {
        assert(matrix.contains_key(linked::place(true, j, k)));
    }
}

/// A row listing is unaffected by edits of other rows.
proof fn row_listing_elsewhere(
    entries: Seq<(usize, Real)>,
    old: Map<(int, int), Real>,
    new: Map<(int, int), Real>,
    row: int,
    edited: int,
)
    requires
        linked::lists_line(entries, old, false, row),
        linked::same_outside_row(new, old, edited),
        row != edited,
    ensures
        linked::lists_line(entries, new, false, row),
{
    assert forall|a: int| 0 <= a < entries.len() implies {
        &&& new.contains_key(linked::place(false, row, (#[trigger] entries[a]).0 as int))
        &&& new[linked::place(false, row, entries[a].0 as int)] == entries[a].1
    } by {
        assert(old.contains_key(linked::place(false, row, entries[a].0 as int)));
        assert(new.contains_key((row, entries[a].0 as int)));
    }
    assert forall|k: int| #[trigger] new.contains_key(linked::place(false, row, k)) implies exists|a: int|
        0 <= a < entries.len() && (#[trigger] entries[a]).0 == k by {
        assert(new.contains_key((row, k)));
        assert(old.contains_key(linked::place(false, row, k)));
    }
}

impl LinkedMatrix {
    /// Merge sorted entries into a row, keeping nodes whose column stays.
    /// Returns the old entries and appends the columns that changed to `touched`.
    pub(crate) fn update_row(
        &mut self,
        row: usize,
        entries: &Vec<(usize, Real)>,
        touched: &mut Vec<usize>,
    ) -> (saved: Entries)
        requires
            old(self).wf(),
            row < old(self).row_count(),
            linked::sorted_entries(entries@, old(self).column_count()),
            old(self)@.dom().len() + entries@.len() <= NONE,
        ensures
            final(self).wf(),
            final(self).row_count() == old(self).row_count(),
            final(self).column_count() == old(self).column_count(),
            final(self)@.dom().len() <= old(self)@.dom().len() + entries@.len(),
            linked::row_replaced(final(self)@, old(self)@, row as int, entries@),
            linked::lists_line(saved@, old(self)@, false, row as int),
            forall|k: usize| #[trigger]
                final(touched)@.contains(k) <==> old(touched)@.contains(k) || linked::changes(
                    old(self)@,
                    final(self)@,
                    row as int,
                    k as int,
                ),
    {
        let ghost start = self@;
        let ghost i = row as int;
        let ghost touched0 = touched@;
        let ghost limit = self.column_count();
        let ghost total = self@.dom().len();
        let ghost mut from: int = 0;
        let mut saved: Entries = Vec::with_capacity(self.row(row).len());
        let mut at: u32 = self.walk(row);
        proof {
            self.stored_positions();
            assert forall|k: int| #[trigger] start.contains_key(linked::place(false, i, k)) implies k >= 0 by {
                assert(start.contains_key((i, k)));
            }
            assert forall|k: int| #[trigger] start.contains_key((i, k)) implies k >= 0 by {}
            linked::listing_starts(start, false, i);
            assert(settled(start, start, i, entries@, 0, 0)) by {
                reveal(settled);
            }
            assert(tracked_to(touched@, touched0, start, start, i, 0)) by {
                reveal(tracked_to);
            }
        }
        let mut e: usize = 0;
        while e < entries.len()
            invariant
                self.walking(i, from, at),
                i == row,
                e <= entries@.len(),
                self.row_count() == old(self).row_count(),
                self.column_count() == limit,
                total + entries@.len() <= NONE,
                self.stored_count() <= total + e,
                linked::sorted_entries(entries@, limit),
                e < entries@.len() ==> from <= entries@[e as int].0,
                settled(self@, start, i, entries@, e as int, from),
                tracked_to(touched@, touched0, start, self@, i, from),
                linked::listed_below(saved@, start, false, i, from),
            decreases entries@.len() - e,
        {
            let (col, value): (usize, Real) = entries[e];
            loop
                invariant_except_break
                    self.walking(i, from, at),
                    i == row,
                    self.row_count() == old(self).row_count(),
                    self.column_count() == limit,
                    self.stored_count() <= total + e,
                    from <= col < limit,
                    settled(self@, start, i, entries@, e as int, from),
                    tracked_to(touched@, touched0, start, self@, i, from),
                    linked::listed_below(saved@, start, false, i, from),
                ensures
                    self.walking(i, from, at),
                    self.row_count() == old(self).row_count(),
                    self.column_count() == limit,
                    self.stored_count() <= total + e,
                    from <= col < limit,
                    settled(self@, start, i, entries@, e as int, from),
                    tracked_to(touched@, touched0, start, self@, i, from),
                    linked::listed_below(saved@, start, false, i, from),
                    forall|k: int| #[trigger]
                        self@.contains_key((i, k)) ==> k < from || k >= col,
                decreases limit - from,
            {
                match self.peek(row, at, Ghost(from)) {
                    Some(key) if key < col => {
                        let ghost cur = self@;
                        let (key, was, next): (usize, Real, u32) = self.take(row, at, Ghost(from));
                        proof {
                            drop_item(cur, start, i, entries@, e as int, from, key as int);
                            track_item(touched@, touched0, start, cur, self@, i, from, key);
                            row_positions(start, i);
                            linked::listing_grows(saved@, start, false, i, from, key, was);
                            from = key + 1;
                        }
                        saved.push((key, was));
                        touched.push(key);
                        at = next;
                    },
                    _ => {
                        break ;
                    },
                }
            }
            let ghost cur = self@;
            let (previous, next): (Option<Real>, u32) = self.put(row, col, value, at, Ghost(from));
            at = next;
            proof {
                put_item(cur, start, i, entries@, e as int, from);
                track_item(touched@, touched0, start, cur, self@, i, from, col);
                row_positions(start, i);
                listing_skips(saved@, start, false, i, from, col as int);
            }
            match previous {
                Some(was) => {
                    proof {
                        linked::listing_grows(saved@, start, false, i, col as int, col, was);
                    }
                    saved.push((col, was));
                    if !was.equals(value) {
                        touched.push(col);
                    }
                },
                None => {
                    proof {
                        listing_skips(saved@, start, false, i, col as int, col + 1);
                    }
                    touched.push(col);
                },
            }
            proof {
                from = col + 1;
                if e + 1 < entries@.len() {
                    assert(entries@[e as int].0 < entries@[e + 1].0);
                }
            }
            e = e + 1;
        }
        while at != NONE
            invariant
                self.walking(i, from, at),
                i == row,
                self.row_count() == old(self).row_count(),
                self.column_count() == limit,
                self.stored_count() <= total + entries@.len(),
                settled(self@, start, i, entries@, entries@.len() as int, from),
                tracked_to(touched@, touched0, start, self@, i, from),
                linked::listed_below(saved@, start, false, i, from),
            decreases limit - from,
        {
            let ghost cur = self@;
            let (key, was, next): (usize, Real, u32) = self.take(row, at, Ghost(from));
            proof {
                drop_item(cur, start, i, entries@, entries@.len() as int, from, key as int);
                track_item(touched@, touched0, start, cur, self@, i, from, key);
                row_positions(start, i);
                linked::listing_grows(saved@, start, false, i, from, key, was);
                from = key + 1;
            }
            saved.push((key, was));
            touched.push(key);
            at = next;
        }
        proof {
            self.walked(i, from);
            settled_in_full(self@, start, i, entries@, from, touched@, touched0);
            row_positions(start, i);
            linked::listing_ends(saved@, start, false, i, from);
        }
        saved
    }

    /// Replace a row by sorted nonzero entries and return what it held.
    pub fn replace_row(&mut self, row: usize, entries: &Vec<(usize, Real)>) -> (saved: Entries)
        requires
            old(self).wf(),
            row < old(self).row_count(),
            linked::sorted_entries(entries@, old(self).column_count()),
            old(self)@.dom().len() + entries@.len() <= NONE,
        ensures
            final(self).wf(),
            final(self).row_count() == old(self).row_count(),
            final(self).column_count() == old(self).column_count(),
            final(self)@.dom().len() <= old(self)@.dom().len() + entries@.len(),
            linked::row_replaced(final(self)@, old(self)@, row as int, entries@),
            linked::lists_line(saved@, old(self)@, false, row as int),
    {
        let mut touched: Vec<usize> = Vec::new();
        self.update_row(row, entries, &mut touched)
    }

    /// Build a matrix from its columns, each in increasing row order. Zeros are dropped.
    pub fn from_columns(rows: usize, columns: &Vec<Entries>) -> (matrix: Self)
        requires
            rows < NONE,
            columns@.len() < NONE,
            total_nonzeros(columns@) < NONE,
            forall|j: int, a: int|
                0 <= j < columns@.len() && 0 <= a < columns@[j]@.len() ==> (
                #[trigger] columns@[j]@[a]).0 < rows,
            forall|j: int, a: int, b: int|
                0 <= j < columns@.len() && 0 <= a < b < columns@[j]@.len() ==> (
                #[trigger] columns@[j]@[a]).0 < (#[trigger] columns@[j]@[b]).0,
        ensures
            matrix.wf(),
            matrix.row_count() == rows,
            matrix.column_count() == columns@.len(),
            forall|j: int|
                0 <= j < columns@.len() ==> linked::lists_line(
                    nonzeros(#[trigger] columns@[j]@),
                    matrix@,
                    true,
                    j,
                ),
    {
        let mut out = Self::zeros(rows, columns.len());
        let mut j: usize = 0;
        proof {
            assert(columns@.take(0) =~= Seq::<Entries>::empty());
        }
        while j < columns.len()
            invariant
                j <= columns@.len(),
                out.wf(),
                out.row_count() == rows,
                out.column_count() == columns@.len(),
                total_nonzeros(columns@) < NONE,
                out@.dom().len() == total_nonzeros(columns@.take(j as int)),
                forall|j: int, a: int|
                    0 <= j < columns@.len() && 0 <= a < columns@[j]@.len() ==> (
                    #[trigger] columns@[j]@[a]).0 < rows,
                forall|j: int, a: int, b: int|
                    0 <= j < columns@.len() && 0 <= a < b < columns@[j]@.len() ==> (
                    #[trigger] columns@[j]@[a]).0 < (#[trigger] columns@[j]@[b]).0,
                forall|i: int, k: int| #[trigger] out@.contains_key((i, k)) ==> k < j,
                forall|c: int|
                    0 <= c < j ==> linked::lists_line(nonzeros(#[trigger] columns@[c]@), out@, true, c),
            decreases columns@.len() - j,
        {
            let column = &columns[j];
            let mut a: usize = 0;
            proof {
                total_nonzeros_grows(columns@, j as int);
                assert(column@.take(0) =~= Seq::<(usize, Real)>::empty());
                reveal(Seq::filter);
                assert forall|k: int| !#[trigger] out@.contains_key(linked::place(true, j as int, k)) by {
                    if out@.contains_key(linked::place(true, j as int, k)) {
                        assert(out@.contains_key((k, j as int)));
                    }
                }
            }
            while a < column.len()
                invariant
                    j < columns@.len(),
                    column@ == columns@[j as int]@,
                    a <= column@.len(),
                    out.wf(),
                    out.row_count() == rows,
                    out.column_count() == columns@.len(),
                    total_nonzeros(columns@.take(j as int)) + nonzeros(column@).len() < NONE,
                    out@.dom().len() == total_nonzeros(columns@.take(j as int)) + nonzeros(
                        column@.take(a as int),
                    ).len(),
                    forall|a: int| 0 <= a < column@.len() ==> (#[trigger] column@[a]).0 < rows,
                    forall|a: int, b: int|
                        0 <= a < b < column@.len() ==> (#[trigger] column@[a]).0 < (
                        #[trigger] column@[b]).0,
                    forall|i: int, k: int| #[trigger]
                        out@.contains_key((i, k)) ==> k < j || (k == j && (a > 0 && i
                            <= column@[a - 1].0)),
                    forall|c: int|
                        0 <= c < j ==> linked::lists_line(nonzeros(#[trigger] columns@[c]@), out@, true, c),
                    linked::lists_line(nonzeros(column@.take(a as int)), out@, true, j as int),
                decreases column@.len() - a,
            {
                let (row, value): (usize, Real) = column[a];
                proof {
                    nonzeros_grow(column@, a as int);
                }
                if !value.is_zero() {
                    let ghost before = out@;
                    proof {
                        out.stored_positions();
                        assert forall|k: int| #[trigger]
                            before.contains_key((row as int, k)) implies k < j by {
                            assert(k == j ==> row <= column@[a - 1].0);
                        }
                        assert(!before.contains_key((row as int, j as int)));
                        assert forall|k: int| #[trigger]
                            before.contains_key((k, j as int)) implies k < row by {}
                        line_appended(
                            nonzeros(column@.take(a as int)),
                            before,
                            j as int,
                            row,
                            value,
                        );
                        assert forall|c: int| 0 <= c < j implies linked::lists_line(
                            nonzeros(#[trigger] columns@[c]@),
                            before.insert((row as int, j as int), value),
                            true,
                            c,
                        ) by {
                            line_elsewhere(
                                nonzeros(columns@[c]@),
                                before,
                                c,
                                (row as int, j as int),
                                value,
                            );
                        }
                    }
                    out.append(row, j, value);
                    proof {
                        assert(out@.dom() =~= before.dom().insert((row as int, j as int)));
                    }
                }
                proof {
                    if a > 0 {
                        assert(column@[a - 1].0 < column@[a as int].0);
                    }
                }
                a = a + 1;
            }
            proof {
                assert(column@.take(a as int) =~= column@);
            }
            j = j + 1;
        }
        proof {
            assert(columns@.take(j as int) =~= columns@);
        }
        out
    }

    /// Replace several rows and return, in increasing order, the columns in
    /// which a coefficient appeared, disappeared or changed.
    pub fn replace_rows(&mut self, updates: &Vec<(usize, Entries)>) -> (touched: Vec<usize>)
        requires
            old(self).wf(),
            old(self)@.dom().len() + total_entries(updates@) <= NONE,
            forall|u: int|
                0 <= u < updates@.len() ==> {
                    &&& (#[trigger] updates@[u]).0 < old(self).row_count()
                    &&& linked::sorted_entries(updates@[u].1@, old(self).column_count())
                },
            forall|u: int, v: int|
                0 <= u < v < updates@.len() ==> (#[trigger] updates@[u]).0 != (
                #[trigger] updates@[v]).0,
        ensures
            final(self).wf(),
            final(self).row_count() == old(self).row_count(),
            final(self).column_count() == old(self).column_count(),
            final(self)@.dom().len() <= old(self)@.dom().len() + total_entries(updates@),
            forall|u: int|
                0 <= u < updates@.len() ==> linked::lists_line(
                    (#[trigger] updates@[u]).1@,
                    final(self)@,
                    false,
                    updates@[u].0 as int,
                ),
            forall|i: int, j: int|
                !updates_row(updates@, updates@.len() as int, i) ==> {
                    &&& (#[trigger] final(self)@.contains_key((i, j)) <==> old(
                        self,
                    )@.contains_key((i, j)))
                    &&& final(self)@.contains_key((i, j)) ==> final(self)@[(i, j)] == old(
                        self,
                    )@[(i, j)]
                },
            crate::order::strictly_ascending(touched@),
            forall|k: usize| #[trigger]
                touched@.contains(k) <==> exists|u: int|
                    0 <= u < updates@.len() && linked::changes(
                        old(self)@,
                        final(self)@,
                        (#[trigger] updates@[u]).0 as int,
                        k as int,
                    ),
    {
        let ghost start = self@;
        let mut touched: Vec<usize> = Vec::new();
        let mut u: usize = 0;
        proof {
            assert(updates@.take(0) =~= Seq::<(usize, Entries)>::empty());
        }
        while u < updates.len()
            invariant
                u <= updates@.len(),
                self.wf(),
                self.row_count() == old(self).row_count(),
                self.column_count() == old(self).column_count(),
                start.dom().len() + total_entries(updates@) <= NONE,
                self@.dom().len() <= start.dom().len() + total_entries(updates@.take(u as int)),
                forall|u: int|
                    0 <= u < updates@.len() ==> {
                        &&& (#[trigger] updates@[u]).0 < self.row_count()
                        &&& linked::sorted_entries(updates@[u].1@, self.column_count())
                    },
                forall|u: int, v: int|
                    0 <= u < v < updates@.len() ==> (#[trigger] updates@[u]).0 != (
                    #[trigger] updates@[v]).0,
                forall|v: int|
                    0 <= v < u ==> linked::lists_line(
                        (#[trigger] updates@[v]).1@,
                        self@,
                        false,
                        updates@[v].0 as int,
                    ),
                forall|i: int, j: int|
                    !updates_row(updates@, u as int, i) ==> {
                        &&& (#[trigger] self@.contains_key((i, j)) <==> start.contains_key((i, j)))
                        &&& self@.contains_key((i, j)) ==> self@[(i, j)] == start[(i, j)]
                    },
                forall|k: usize| #[trigger]
                    touched@.contains(k) <==> exists|v: int|
                        0 <= v < u && linked::changes(
                            start,
                            self@,
                            (#[trigger] updates@[v]).0 as int,
                            k as int,
                        ),
            decreases updates@.len() - u,
        {
            let ghost before = self@;
            let ghost touched0 = touched@;
            let row: usize = updates[u].0;
            proof {
                total_entries_grows(updates@, u as int);
                assert(!updates_row(updates@, u as int, row as int));
            }
            self.update_row(row, &updates[u].1, &mut touched);
            proof {
                assert forall|v: int| 0 <= v < u implies linked::lists_line(
                    (#[trigger] updates@[v]).1@,
                    self@,
                    false,
                    updates@[v].0 as int,
                ) by {
                    assert(updates@[v].0 != updates@[u as int].0);
                    row_listing_elsewhere(
                        updates@[v].1@,
                        before,
                        self@,
                        updates@[v].0 as int,
                        row as int,
                    );
                }
                assert forall|i: int, j: int| !updates_row(updates@, u + 1, i) implies {
                    &&& (#[trigger] self@.contains_key((i, j)) <==> start.contains_key((i, j)))
                    &&& self@.contains_key((i, j)) ==> self@[(i, j)] == start[(i, j)]
                } by {
                    assert(updates@[u as int].0 == row);
                    assert(!updates_row(updates@, u as int, i)) by {
                        if updates_row(updates@, u as int, i) {
                            let v = choose|v: int| 0 <= v < u && (#[trigger] updates@[v]).0 == i;
                            assert(updates@[v].0 == i);
                        }
                    }
                    assert(self@.contains_key((i, j)) <==> before.contains_key((i, j)));
                }
                assert forall|k: usize| #[trigger] touched@.contains(k) <==> exists|v: int|
                    0 <= v < u + 1 && linked::changes(
                        start,
                        self@,
                        (#[trigger] updates@[v]).0 as int,
                        k as int,
                    ) by {
                    assert forall|v: int| 0 <= v < u implies linked::changes(
                        start,
                        self@,
                        (#[trigger] updates@[v]).0 as int,
                        k as int,
                    ) == linked::changes(start, before, updates@[v].0 as int, k as int) by {
                        assert(updates@[v].0 != updates@[u as int].0);
                        assert(self@.contains_key((updates@[v].0 as int, k as int))
                            <==> before.contains_key((updates@[v].0 as int, k as int)));
                    }
                    assert(before.contains_key((row as int, k as int)) <==> start.contains_key(
                        (row as int, k as int),
                    ));
                    assert(linked::changes(start, self@, row as int, k as int) == linked::changes(
                        before,
                        self@,
                        row as int,
                        k as int,
                    ));
                    if touched@.contains(k) {
                        if touched0.contains(k) {
                            let v = choose|v: int|
                                0 <= v < u && linked::changes(
                                    start,
                                    before,
                                    (#[trigger] updates@[v]).0 as int,
                                    k as int,
                                );
                            assert(linked::changes(start, self@, updates@[v].0 as int, k as int));
                        } else {
                            assert(updates@[u as int].0 == row);
                        }
                    }
                    if exists|v: int|
                        0 <= v < u + 1 && linked::changes(
                            start,
                            self@,
                            (#[trigger] updates@[v]).0 as int,
                            k as int,
                        ) {
                        let v = choose|v: int|
                            0 <= v < u + 1 && linked::changes(
                                start,
                                self@,
                                (#[trigger] updates@[v]).0 as int,
                                k as int,
                            );
                        if v < u {
                            assert(linked::changes(start, before, updates@[v].0 as int, k as int));
                            assert(touched0.contains(k));
                        }
                    }
                }
            }
            u = u + 1;
        }
        proof {
            assert(updates@.take(u as int) =~= updates@);
        }
        let ghost listed = touched@;
        let touched = crate::order::sorted_distinct(touched);
        proof {
            assert forall|k: usize| #[trigger] touched@.contains(k) <==> exists|u: int|
                0 <= u < updates@.len() && linked::changes(
                    start,
                    self@,
                    (#[trigger] updates@[u]).0 as int,
                    k as int,
                ) by {
                assert(listed.contains(k) <==> touched@.contains(k));
            }
        }
        touched
    }
}

} // verus!
