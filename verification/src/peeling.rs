//! Rows that can take part in a linear dependency.
//!
//! A row with a column of its own cannot. Peeling such rows off, one after the
//! other, leaves a core in which every column is shared.

use crate::arithmetic::Arithmetic;
use crate::bounds::RowDomain;
use crate::dependencies;
use crate::linked::{self, Entries};
use crate::listing;
use crate::model::{self, Model};
use crate::number::Real;
use crate::settings::DependencySettings;
use vstd::prelude::*;

verus! {

/// An equality with entries, but not too many.
pub open spec fn eligible(model: Model, i: int, max_length: nat) -> bool {
    &&& model.rows@[i] matches RowDomain::Linear(b) && b.is_equality()
    &&& 0 < listing::line(model.a@, false, i).len() <= max_length
}

/// The eligible rows before row `n`.
pub open spec fn eligible_rows(model: Model, max_length: nat, n: nat) -> Seq<usize>
    decreases n,
{
    if n == 0 {
        Seq::empty()
    } else {
        let before = eligible_rows(model, max_length, (n - 1) as nat);
        if eligible(model, n - 1, max_length) {
            before.push((n - 1) as usize)
        } else {
            before
        }
    }
}

/// Row `p` of the list is still there and has an entry in column `j`.
pub open spec fn present(
    a: Map<(int, int), Real>,
    rows: Seq<usize>,
    gone: Seq<bool>,
    p: int,
    j: int,
) -> bool {
    !gone[p] && a.contains_key((rows[p] as int, j))
}

/// How many of the first `n` rows have an entry in column `j`.
pub open spec fn degree(
    a: Map<(int, int), Real>,
    rows: Seq<usize>,
    gone: Seq<bool>,
    j: int,
    n: nat,
) -> nat
    decreases n,
{
    if n == 0 {
        0
    } else {
        degree(a, rows, gone, j, (n - 1) as nat) + if present(a, rows, gone, n - 1, j) {
            1nat
        } else {
            0
        }
    }
}

/// The places of those rows, added up.
pub open spec fn places(
    a: Map<(int, int), Real>,
    rows: Seq<usize>,
    gone: Seq<bool>,
    j: int,
    n: nat,
) -> nat
    decreases n,
{
    if n == 0 {
        0
    } else {
        places(a, rows, gone, j, (n - 1) as nat) + if present(a, rows, gone, n - 1, j) {
            (n - 1) as nat
        } else {
            0
        }
    }
}

/// With one row left in a column, the sum of the places is its place.
proof fn sole_row(a: Map<(int, int), Real>, rows: Seq<usize>, gone: Seq<bool>, j: int, n: nat)
    ensures
        degree(a, rows, gone, j, n) == 0 ==> places(a, rows, gone, j, n) == 0 && forall|p: int|
            0 <= p < n ==> !#[trigger] present(a, rows, gone, p, j),
        degree(a, rows, gone, j, n) == 1 ==> places(a, rows, gone, j, n) < n && present(
            a,
            rows,
            gone,
            places(a, rows, gone, j, n) as int,
            j,
        ) && forall|p: int|
            0 <= p < n && p != places(a, rows, gone, j, n) ==> !#[trigger] present(
                a,
                rows,
                gone,
                p,
                j,
            ),
    decreases n,
{
    if n > 0 {
        sole_row(a, rows, gone, j, (n - 1) as nat);
    }
}

/// A row that goes takes its share along.
proof fn row_leaves(
    a: Map<(int, int), Real>,
    rows: Seq<usize>,
    gone: Seq<bool>,
    p: int,
    j: int,
    n: nat,
)
    requires
        0 <= p < gone.len(),
        n <= gone.len(),
        !gone[p],
    ensures
        ({
            let here = p < n && a.contains_key((rows[p] as int, j));
            let later = gone.update(p, true);
            &&& degree(a, rows, gone, j, n) == degree(a, rows, later, j, n) + if here {
                1nat
            } else {
                0
            }
            &&& places(a, rows, gone, j, n) == places(a, rows, later, j, n) + if here {
                p as nat
            } else {
                0
            }
        }),
    decreases n,
{
    if n > 0 {
        row_leaves(a, rows, gone, p, j, (n - 1) as nat);
    }
}

proof fn shares_fit(a: Map<(int, int), Real>, rows: Seq<usize>, gone: Seq<bool>, j: int, n: nat)
    ensures
        degree(a, rows, gone, j, n) <= n,
        places(a, rows, gone, j, n) <= n * n,
    decreases n,
{
    if n > 0 {
        shares_fit(a, rows, gone, j, (n - 1) as nat);
        assert((n - 1) * (n - 1) + (n - 1) <= n * n) by (nonlinear_arith)
            requires
                n > 0,
        ;
    }
}

/// When row `p` of the list was peeled off it had a column that no other row
/// still there had.
pub open spec fn has_own_column(
    a: Map<(int, int), Real>,
    rows: Seq<usize>,
    gone: Seq<bool>,
    p: int,
) -> bool {
    exists|j: int|
        #![trigger a.contains_key((rows[p] as int, j))]
        a.contains_key((rows[p] as int, j)) && forall|q: int|
            0 <= q < rows.len() && q != p ==> !#[trigger] present(a, rows, gone, q, j)
}

/// Nothing is gone.
pub open spec fn all_kept(n: nat) -> Seq<bool> {
    Seq::new(n, |p: int| false)
}

/// One of the first `e` entries is in column `j`.
pub open spec fn lists_before(entries: Seq<(usize, Real)>, e: int, j: int) -> bool {
    exists|d: int| 0 <= d < e && (#[trigger] entries[d]).0 == j
}

/// One of the entries from place `e` on is in column `j`.
pub open spec fn lists_from(entries: Seq<(usize, Real)>, e: int, j: int) -> bool {
    exists|d: int| e <= d < entries.len() && (#[trigger] entries[d]).0 == j
}

/// Rows peeled off in turn.
pub open spec fn peels(
    a: Map<(int, int), Real>,
    rows: Seq<usize>,
    peeled: Seq<int>,
    gone: Seq<bool>,
) -> bool
    decreases peeled.len(),
{
    if peeled.len() == 0 {
        gone == all_kept(rows.len())
    } else {
        let p = peeled.last();
        &&& 0 <= p < rows.len()
        &&& gone.len() == rows.len()
        &&& gone[p]
        &&& peels(a, rows, peeled.drop_last(), gone.update(p, false))
        &&& has_own_column(a, rows, gone.update(p, false), p)
    }
}

/// The rows that are not gone, from place `k` on.
pub open spec fn remaining(rows: Seq<usize>, gone: Seq<bool>, list: Seq<usize>, k: int) -> Seq<usize>
    decreases rows.len() - k,
{
    if k >= rows.len() {
        list
    } else {
        remaining(
            rows,
            gone,
            if gone[k] {
                list
            } else {
                list.push(rows[k])
            },
            k + 1,
        )
    }
}

/// What the search for a core leaves: eligible rows less those peeled off.
pub open spec fn core_of(
    model: Model,
    max_length: nat,
    rows: Seq<usize>,
    peeled: Seq<int>,
    gone: Seq<bool>,
    core: Seq<usize>,
) -> bool {
    &&& rows.is_prefix_of(eligible_rows(model, max_length, model.rows@.len()))
    &&& peels(model.a@, rows, peeled, gone)
    &&& core == remaining(rows, gone, Seq::empty(), 0)
}

/// A row with an entry in a column of one entry.
pub open spec fn meets_short_column(a: Map<(int, int), Real>, i: int) -> bool {
    let entries = listing::line(a, false, i);
    exists|d: int|
        0 <= d < entries.len() && linked::line_items(
            a,
            true,
            (#[trigger] entries[d]).0 as int,
        ).len() == 1
}

pub open spec fn is_core(model: Model, max_length: nat, core: Seq<usize>) -> bool {
    exists|rows: Seq<usize>, peeled: Seq<int>, gone: Seq<bool>| #[trigger]
        core_of(model, max_length, rows, peeled, gone, core)
}

proof fn nothing_gone(rows: Seq<usize>, list: Seq<usize>, k: int)
    requires
        0 <= k <= rows.len(),
    ensures
        remaining(rows, all_kept(rows.len()), list, k) == list + rows.skip(k),
    decreases rows.len() - k,
{
    if k < rows.len() {
        nothing_gone(rows, list.push(rows[k]), k + 1);
        assert(list.push(rows[k]) + rows.skip(k + 1) =~= list + rows.skip(k));
    } else {
        assert(list + rows.skip(k) =~= list);
    }
}

proof fn eligible_prefix(model: Model, max_length: nat, m: nat, n: nat)
    requires
        m <= n,
    ensures
        eligible_rows(model, max_length, m).is_prefix_of(eligible_rows(model, max_length, n)),
    decreases n,
{
    if m < n {
        eligible_prefix(model, max_length, m, (n - 1) as nat);
    }
}

/// The whole list, when nothing is peeled off.
proof fn unpeeled(model: Model, max_length: nat, rows: Seq<usize>)
    requires
        rows.is_prefix_of(eligible_rows(model, max_length, model.rows@.len())),
    ensures
        core_of(
            model,
            max_length,
            rows,
            Seq::empty(),
            all_kept(rows.len()),
            rows,
        ),
{
    nothing_gone(rows, Seq::empty(), 0);
    assert(Seq::<usize>::empty() + rows.skip(0) =~= rows);
}

/// Degrees and places of the columns.
spec fn tallied(
    a: Map<(int, int), Real>,
    rows: Seq<usize>,
    gone: Seq<bool>,
    degrees: Seq<usize>,
    owners: Seq<u128>,
) -> bool {
    &&& degrees.len() == owners.len()
    &&& forall|j: int|
        0 <= j < degrees.len() ==> {
            &&& (#[trigger] degrees[j]) == degree(a, rows, gone, j, rows.len())
            &&& owners[j] == places(a, rows, gone, j, rows.len())
        }
}

impl Model {
    /// The eligible rows, as far as the allowance reaches, and their entries.
    fn list_eligible<E: Fn() -> bool>(
        &self,
        max_length: usize,
        allowance: usize,
        expired: &E,
    ) -> (r: Option<(Vec<usize>, u128)>)
        requires
            self.wf(),
            call_requires(*expired, ()),
        ensures
            match r {
                Some((rows, entries)) => {
                    &&& rows@.is_prefix_of(
                        eligible_rows(*self, max_length as nat, self.rows@.len()),
                    )
                    &&& forall|k: int|
                        0 <= k < rows@.len() ==> #[trigger] rows@[k] < self.rows@.len()
                    &&& forall|k: int|
                        0 <= k < rows@.len() ==> listing::line(
                            self.a@,
                            false,
                            #[trigger] rows@[k] as int,
                        ).len() > 0
                },
                None => call_ensures(*expired, (), true),
            },
    {
        let mut rows: Vec<usize> = Vec::new();
        let mut entries: u128 = 0;
        let mut i: usize = 0;
        while i < self.rows.len()
            invariant
                i <= self.rows@.len(),
                self.wf(),
                call_requires(*expired, ()),
                rows@ == eligible_rows(*self, max_length as nat, i as nat),
                forall|k: int| 0 <= k < rows@.len() ==> #[trigger] rows@[k] < self.rows@.len(),
                forall|k: int|
                    0 <= k < rows@.len() ==> listing::line(
                        self.a@,
                        false,
                        #[trigger] rows@[k] as int,
                    ).len() > 0,
                entries <= allowance,
            decreases self.rows@.len() - i,
        {
            if i % 1024 == 0 && expired() {
                return None;
            }
            let equality = match self.rows[i] {
                RowDomain::Linear(b) => b.equality(),
                _ => false,
            };
            if equality {
                let length: usize = self.row_entries(i).len();
                if length != 0 && length <= max_length {
                    rows.push(i);
                    entries = entries + length as u128;
                    proof {
                        assert(rows@ =~= eligible_rows(*self, max_length as nat, (i + 1) as nat));
                        eligible_prefix(
                            *self,
                            max_length as nat,
                            (i + 1) as nat,
                            self.rows@.len(),
                        );
                    }
                    if entries > allowance as u128 {
                        return Some((rows, entries));
                    }
                }
            }
            i = i + 1;
        }
        Some((rows, entries))
    }

    /// Degrees and places of the columns, before anything is peeled off.
    fn tally<E: Fn() -> bool>(&self, rows: &Vec<usize>, expired: &E) -> (r: (
        Vec<usize>,
        Vec<u128>,
        bool,
    ))
        requires
            self.wf(),
            call_requires(*expired, ()),
            forall|k: int| 0 <= k < rows@.len() ==> #[trigger] rows@[k] < self.rows@.len(),
        ensures
            r.0@.len() == self.bounds@.len(),
            r.2 ==> call_ensures(*expired, (), true),
            !r.2 ==> tallied(
                self.a@,
                rows@,
                all_kept(rows@.len()),
                r.0@,
                r.1@,
            ),
    {
        let n: usize = self.bounds.len();
        let mut degrees: Vec<usize> = vec![0usize; n];
        let mut owners: Vec<u128> = vec![0u128; n];
        let ghost none = all_kept(rows@.len());
        let ghost a = self.a@;
        assert(rows.len() == rows@.len());
        let mut p: usize = 0;
        while p < rows.len()
            invariant
                p <= rows@.len() <= usize::MAX,
                self.wf(),
                a == self.a@,
                call_requires(*expired, ()),
                none == all_kept(rows@.len()),
                forall|k: int| 0 <= k < rows@.len() ==> #[trigger] rows@[k] < self.rows@.len(),
                degrees@.len() == owners@.len() == n == self.bounds@.len(),
                forall|j: int|
                    0 <= j < n ==> {
                        &&& (#[trigger] degrees@[j]) == degree(a, rows@, none, j, p as nat)
                        &&& owners@[j] == places(a, rows@, none, j, p as nat)
                    },
            decreases rows@.len() - p,
        {
            if p % 256 == 0 && expired() {
                return (degrees, owners, true);
            }
            let ghost row = rows@[p as int] as int;
            assert(rows@[p as int] < self.rows@.len());
            let entries = self.row_entries(rows[p]);
            let ghost (d0, o0) = (degrees@, owners@);
            let mut e: usize = 0;
            while e < entries.len()
                invariant
                    e <= entries@.len(),
                    p < rows@.len() <= usize::MAX,
                    degrees@.len() == owners@.len() == n == d0.len() == o0.len(),
                    model::in_range(entries@, n as nat),
                    linked::lists_line(entries@, a, false, row),
                    none == all_kept(rows@.len()),
                    forall|j: int|
                        0 <= j < n ==> {
                            &&& (#[trigger] d0[j]) == degree(a, rows@, none, j, p as nat)
                            &&& o0[j] == places(a, rows@, none, j, p as nat)
                        },
                    forall|j: int|
                        0 <= j < n ==> {
                            &&& (#[trigger] degrees@[j]) == d0[j] + if lists_before(
                                entries@,
                                e as int,
                                j,
                            ) {
                                1int
                            } else {
                                0
                            }
                            &&& owners@[j] == o0[j] + if lists_before(entries@, e as int, j) {
                                p as int
                            } else {
                                0
                            }
                        },
                decreases entries@.len() - e,
            {
                let j: usize = entries[e].0;
                assert(entries@[e as int].0 < n);
                let ghost (d1, o1) = (degrees@, owners@);
                proof {
                    shares_fit(a, rows@, none, j as int, p as nat);
                    assert(d0[j as int] == degree(a, rows@, none, j as int, p as nat));
                    assert(p * p + p <= u128::MAX) by (nonlinear_arith)
                        requires
                            p < usize::MAX,
                    ;
                    assert forall|d: int| 0 <= d < e implies (#[trigger] entries@[d]).0 != j by {
                        assert(entries@[d].0 < entries@[e as int].0);
                    }
                    assert(!lists_before(entries@, e as int, j as int));
                    assert(degrees@[j as int] == d0[j as int]);
                }
                degrees.set(j, degrees[j] + 1);
                owners.set(j, owners[j] + p as u128);
                proof {
                    assert forall|c: int| 0 <= c < n implies ({
                        &&& (#[trigger] degrees@[c]) == d0[c] + if lists_before(
                            entries@,
                            e + 1,
                            c,
                        ) {
                            1int
                        } else {
                            0
                        }
                        &&& owners@[c] == o0[c] + if lists_before(entries@, e + 1, c) {
                            p as int
                        } else {
                            0
                        }
                    }) by {
                        if c == j {
                            assert(entries@[e as int].0 == c);
                            assert(lists_before(entries@, e + 1, c));
                        } else {
                            assert(degrees@[c] == d1[c]);
                            if lists_before(entries@, e as int, c) {
                                let d = choose|d: int|
                                    0 <= d < e && (#[trigger] entries@[d]).0 == c;
                                assert(entries@[d].0 == c);
                                assert(lists_before(entries@, e + 1, c));
                            }
                            if lists_before(entries@, e + 1, c) {
                                let d = choose|d: int|
                                    0 <= d < e + 1 && (#[trigger] entries@[d]).0 == c;
                                assert(d < e);
                                assert(lists_before(entries@, e as int, c));
                            }
                        }
                    }
                }
                e = e + 1;
            }
            proof {
                assert forall|j: int| 0 <= j < n implies {
                    &&& (#[trigger] degrees@[j]) == degree(a, rows@, none, j, (p + 1) as nat)
                    &&& owners@[j] == places(a, rows@, none, j, (p + 1) as nat)
                } by {
                    assert(d0[j] == degree(a, rows@, none, j, p as nat));
                    let met = lists_before(entries@, entries@.len() as int, j);
                    if a.contains_key((row, j)) {
                        assert(a.contains_key(linked::place(false, row, j)));
                        let d = choose|d: int|
                            0 <= d < entries@.len() && (#[trigger] entries@[d]).0 == j;
                        assert(entries@[d].0 == j);
                    }
                    if met {
                        let d = choose|d: int|
                            0 <= d < entries@.len() && (#[trigger] entries@[d]).0 == j;
                        assert(a.contains_key(linked::place(false, row, entries@[d].0 as int)));
                    }
                    assert(met == a.contains_key((row, j)));
                    assert(present(a, rows@, none, p as int, j) == met);
                }
            }
            p = p + 1;
        }
        (degrees, owners, false)
    }

    /// Peel one row off.
    fn peel(
        &self,
        rows: &Vec<usize>,
        p: usize,
        entries: &Entries,
        gone: &mut Vec<bool>,
        degrees: &mut Vec<usize>,
        owners: &mut Vec<u128>,
        leaves: &mut Vec<usize>,
    )
        requires
            self.wf(),
            p < rows@.len() == old(gone)@.len(),
            !old(gone)@[p as int],
            rows@[p as int] < self.rows@.len(),
            entries@ == listing::line(self.a@, false, rows@[p as int] as int),
            linked::lists_line(entries@, self.a@, false, rows@[p as int] as int),
            model::in_range(entries@, self.bounds@.len()),
            old(degrees)@.len() == self.bounds@.len(),
            tallied(self.a@, rows@, old(gone)@, old(degrees)@, old(owners)@),
            direction_fit(old(leaves)@, self.bounds@.len()),
        ensures
            final(gone)@ == old(gone)@.update(p as int, true),
            final(degrees)@.len() == self.bounds@.len(),
            tallied(self.a@, rows@, final(gone)@, final(degrees)@, final(owners)@),
            direction_fit(final(leaves)@, self.bounds@.len()),
    {
        let ghost before = gone@;
        let ghost later = gone@.update(p as int, true);
        let ghost row = rows@[p as int] as int;
        let ghost a = self.a@;
        let ghost n = rows@.len();
        gone.set(p, true);
        let mut e: usize = 0;
        proof {
            assert forall|j: int| 0 <= j < degrees@.len() && !lists_from(
                entries@,
                e as int,
                j,
            ) implies (
            #[trigger] degrees@[j]) == degree(a, rows@, later, j, n) && owners@[j] == places(
                a,
                rows@,
                later,
                j,
                n,
            ) by {
                row_leaves(a, rows@, before, p as int, j, n);
                if a.contains_key((row, j)) {
                    assert(a.contains_key(linked::place(false, row, j)));
                    let d = choose|d: int|
                        0 <= d < entries@.len() && (#[trigger] entries@[d]).0 == j;
                    assert(lists_from(entries@, e as int, j));
                }
            }
        }
        while e < entries.len()
            invariant
                e <= entries@.len(),
                model::in_range(entries@, degrees@.len()),
                degrees@.len() == owners@.len() == self.bounds@.len(),
                a == self.a@,
                n == rows@.len() == before.len(),
                p < n,
                !before[p as int],
                row == rows@[p as int] as int,
                later == before.update(p as int, true),
                gone@ == later,
                linked::lists_line(entries@, a, false, row),
                direction_fit(leaves@, self.bounds@.len()),
                forall|j: int|
                    0 <= j < degrees@.len() && !lists_from(
                        entries@,
                        e as int,
                        j,
                    ) ==> (
                    #[trigger] degrees@[j]) == degree(a, rows@, later, j, n) && owners@[j]
                        == places(a, rows@, later, j, n),
                forall|d: int|
                    e <= d < entries@.len() ==> {
                        let j = (#[trigger] entries@[d]).0 as int;
                        degrees@[j] == degree(a, rows@, before, j, n) && owners@[j] == places(
                            a,
                            rows@,
                            before,
                            j,
                            n,
                        )
                    },
            decreases entries@.len() - e,
        {
            let j: usize = entries[e].0;
            let ghost (d0, o0) = (degrees@, owners@);
            assert(entries@[e as int].0 < degrees@.len());
            proof {
                assert(a.contains_key(linked::place(false, row, j as int)));
                assert(a.contains_key((row, j as int)));
                row_leaves(a, rows@, before, p as int, j as int, n);
            }
            degrees.set(j, degrees[j] - 1);
            owners.set(j, owners[j] - p as u128);
            if degrees[j] == 1 {
                leaves.push(j);
            }
            proof {
                assert forall|c: int| 0 <= c < degrees@.len() && !lists_from(
                    entries@,
                    e + 1,
                    c,
                ) implies (
                #[trigger] degrees@[c]) == degree(a, rows@, later, c, n) && owners@[c] == places(
                    a,
                    rows@,
                    later,
                    c,
                    n,
                ) by {
                    if c != j {
                        assert(degrees@[c] == d0[c]);
                        if lists_from(entries@, e as int, c) {
                            let d = choose|d: int|
                                e <= d < entries@.len() && (#[trigger] entries@[d]).0 == c;
                            assert(d != e);
                            assert(lists_from(entries@, e + 1, c));
                        }
                        assert(d0[c] == degree(a, rows@, later, c, n));
                    }
                }
                assert forall|d: int| e + 1 <= d < entries@.len() implies ({
                    let c = (#[trigger] entries@[d]).0 as int;
                    degrees@[c] == degree(a, rows@, before, c, n) && owners@[c] == places(
                        a,
                        rows@,
                        before,
                        c,
                        n,
                    )
                }) by {
                    assert(entries@[e as int].0 < entries@[d].0);
                    assert(entries@[d].0 < degrees@.len());
                }
            }
            e = e + 1;
        }
        proof {
            assert forall|j: int| 0 <= j < degrees@.len() implies {
                &&& (#[trigger] degrees@[j]) == degree(a, rows@, later, j, n)
                &&& owners@[j] == places(a, rows@, later, j, n)
            } by {
                assert(!lists_from(entries@, e as int, j));
            }
        }
    }

    /// Whether one of the rows has an entry in a column of one entry.
    fn any_short_column(&self, rows: &Vec<usize>) -> (b: bool)
        requires
            self.wf(),
            forall|k: int| 0 <= k < rows@.len() ==> #[trigger] rows@[k] < self.rows@.len(),
        ensures
            b == exists|k: int|
                0 <= k < rows@.len() && meets_short_column(self.a@, #[trigger] rows@[k] as int),
    {
        let mut k: usize = 0;
        while k < rows.len()
            invariant
                k <= rows@.len(),
                self.wf(),
                forall|k: int| 0 <= k < rows@.len() ==> #[trigger] rows@[k] < self.rows@.len(),
                forall|i: int|
                    0 <= i < k ==> !meets_short_column(self.a@, #[trigger] rows@[i] as int),
            decreases rows@.len() - k,
        {
            assert(rows@[k as int] < self.rows@.len());
            let entries = self.row_entries(rows[k]);
            let mut e: usize = 0;
            while e < entries.len()
                invariant
                    e <= entries@.len(),
                    k < rows@.len(),
                    self.wf(),
                    entries@ == listing::line(self.a@, false, rows@[k as int] as int),
                    model::in_range(entries@, self.bounds@.len()),
                    forall|d: int|
                        0 <= d < e ==> linked::line_items(
                            self.a@,
                            true,
                            (#[trigger] entries@[d]).0 as int,
                        ).len() != 1,
                decreases entries@.len() - e,
            {
                assert(entries@[e as int].0 < self.bounds@.len());
                if self.a.column(entries[e].0).len() == 1 {
                    assert(meets_short_column(self.a@, rows@[k as int] as int));
                    return true;
                }
                e = e + 1;
            }
            k = k + 1;
        }
        false
    }

    /// The equalities that may depend on each other: those left when rows with a
    /// column of their own are peeled off, as far as the allowance reaches. What
    /// is left of the allowance comes back too.
    pub fn dependency_core<E: Fn() -> bool>(
        &self,
        max_length: usize,
        allowance: usize,
        expired: &E,
    ) -> (r: (Vec<usize>, usize))
        requires
            self.wf(),
            call_requires(*expired, ()),
        ensures
            r.1 <= allowance,
            forall|k: int| 0 <= k < r.0@.len() ==> #[trigger] r.0@[k] < self.rows@.len(),
            r.0@.len() == 0 && call_ensures(*expired, (), true) || is_core(
                *self,
                max_length as nat,
                r.0@,
            ),
    {
        let (rows, entries): (Vec<usize>, u128) = match self.list_eligible(
            max_length,
            allowance,
            expired,
        ) {
            Some(list) => list,
            None => {
                return (Vec::new(), allowance);
            },
        };
        proof {
            unpeeled(*self, max_length as nat, rows@);
            assert(is_core(*self, max_length as nat, rows@));
            assert(rows.len() == rows@.len());
        }
        let cost: u128 = if entries > usize::MAX as u128 {
            usize::MAX as u128 + self.bounds.len() as u128
        } else {
            entries + self.bounds.len() as u128
        };
        if entries > allowance as u128 || rows.len() < 2 || cost > (allowance / 2) as u128 {
            return (rows, allowance);
        }
        // Where the rows hold every entry, short columns show whether peeling can start.
        if entries == self.a.nnz() as u128 && !self.any_short_column(&rows) {
            return (rows, allowance);
        }
        let mut work: usize = allowance - cost as usize;
        let n: usize = self.bounds.len();
        let mut gone: Vec<bool> = vec![false; rows.len()];
        let ghost none = all_kept(rows@.len());
        assert(gone@ =~= none);
        let (degrees0, owners0, late): (Vec<usize>, Vec<u128>, bool) = self.tally(
            &rows,
            expired,
        );
        if late {
            return (Vec::new(), work);
        }
        let mut degrees = degrees0;
        let mut owners = owners0;
        let mut leaves: Vec<usize> = Vec::new();
        let mut j: usize = 0;
        while j < n
            invariant
                j <= n == degrees@.len() == self.bounds@.len(),
                direction_fit(leaves@, n as nat),
            decreases n - j,
        {
            if degrees[j] == 1 {
                leaves.push(j);
            }
            j = j + 1;
        }
        let ghost mut peeled: Seq<int> = Seq::empty();
        let mut stop = false;
        while leaves.len() > 0 && !stop
            invariant
                self.wf(),
                call_requires(*expired, ()),
                work <= allowance,
                gone@.len() == rows@.len(),
                forall|k: int| 0 <= k < rows@.len() ==> #[trigger] rows@[k] < self.rows@.len(),
                forall|k: int|
                    0 <= k < rows@.len() ==> listing::line(
                        self.a@,
                        false,
                        #[trigger] rows@[k] as int,
                    ).len() > 0,
                degrees@.len() == self.bounds@.len(),
                tallied(self.a@, rows@, gone@, degrees@, owners@),
                direction_fit(leaves@, self.bounds@.len()),
                peels(self.a@, rows@, peeled, gone@),
            decreases work, leaves@.len(), if stop { 0nat } else { 1 },
        {
            let leaf = leaves.pop();
            let c: usize = match leaf {
                Some(c) => c,
                None => 0,
            };
            assert(c < self.bounds@.len());
            if degrees[c] != 1 {
                continue;
            }
            proof {
                sole_row(self.a@, rows@, gone@, c as int, rows@.len());
                assert(degrees@[c as int] == degree(
                    self.a@,
                    rows@,
                    gone@,
                    c as int,
                    rows@.len(),
                ));
            }
            assert(owners@[c as int] == places(self.a@, rows@, gone@, c as int, rows@.len()));
            assert(rows.len() == rows@.len());
            let p: usize = owners[c] as usize;
            assert(present(self.a@, rows@, gone@, p as int, c as int));
            assert(rows@[p as int] < self.rows@.len());
            let row = self.row_entries(rows[p]);
            if row.len() > work || expired() {
                stop = true;
                continue;
            }
            work = work - row.len();
            let ghost before = gone@;
            self.peel(&rows, p, &row, &mut gone, &mut degrees, &mut owners, &mut leaves);
            proof {
                let more = peeled.push(p as int);
                assert(more.drop_last() =~= peeled);
                assert(gone@.update(p as int, false) =~= before);
                assert(has_own_column(self.a@, rows@, before, p as int)) by {
                    assert(present(self.a@, rows@, before, p as int, c as int));
                    assert(self.a@.contains_key((rows@[p as int] as int, c as int)));
                }
                peeled = more;
            }
        }
        let mut core: Vec<usize> = Vec::new();
        assert(core@ =~= Seq::<usize>::empty());
        let mut k: usize = 0;
        while k < rows.len()
            invariant
                k <= rows@.len() == gone@.len(),
                forall|k: int| 0 <= k < rows@.len() ==> #[trigger] rows@[k] < self.rows@.len(),
                forall|k: int| 0 <= k < core@.len() ==> #[trigger] core@[k] < self.rows@.len(),
                remaining(rows@, gone@, Seq::empty(), 0) == remaining(
                    rows@,
                    gone@,
                    core@,
                    k as int,
                ),
            decreases rows@.len() - k,
        {
            if !gone[k] {
                core.push(rows[k]);
            }
            k = k + 1;
        }
        assert(core_of(*self, max_length as nat, rows@, peeled, gone@, core@));
        assert(is_core(*self, max_length as nat, core@));
        (core, work)
    }
}

spec fn direction_fit(list: Seq<usize>, limit: nat) -> bool {
    forall|k: int| 0 <= k < list.len() ==> #[trigger] list[k] < limit
}

impl<
    P: Fn(Real, Real) -> Real,
    T: Fn(Real, Real) -> Real,
    D: Fn(Real, Real) -> Real,
    H: Fn(Real, Real) -> Real,
> Arithmetic<P, T, D, H> {
    /// The dependent rows of a core are dropped. A search that is late may stop
    /// anywhere, but whatever it found stands.
    pub open spec fn core_searched<F: Fn(Real, Real, Real) -> Real>(
        &self,
        before: Model,
        after: Model,
        core: Seq<usize>,
        searches: Seq<dependencies::Search>,
        findings: Seq<dependencies::Finding>,
        options: DependencySettings,
        feasibility: Real,
        f: F,
        r: Result<usize, Entries>,
        late: bool,
    ) -> bool {
        &&& is_core(before, options.max_row_length as nat, core) || late && core.len() == 0
        &&& self.dependency_pass(searches, findings, core, options, feasibility, f)
        &&& searches[0].model == before
        &&& searches[0].basis == Seq::<dependencies::Basis>::empty()
        &&& searches.last().model == after
        &&& match r {
            Ok(count) => count == dependencies::dropped(findings) && (findings.len() == core.len()
                || searches.last().work == 0 || findings.len() > 0 && findings.last() is Stop || late),
            Err(y) => findings.len() > 0 && findings.last()
                == dependencies::Finding::Contradiction(y),
        }
    }

    /// Drop the equalities that depend on others, as far as the allowance reaches.
    pub fn equality_dependencies<F: Fn(Real, Real, Real) -> Real, E: Fn() -> bool>(
        &self,
        model: &mut Model,
        options: DependencySettings,
        feasibility: Real,
        f: &F,
        expired: &E,
    ) -> (r: Result<usize, Entries>)
        requires
            self.wf(),
            old(model).wf(),
            dependencies::fuses(*f),
            call_requires(*expired, ()),
        ensures
            self.equality_dependencies_done(
                *old(model),
                *final(model),
                options,
                feasibility,
                *f,
                *expired,
                r,
            ),
    {
        let stored: usize = model.a.nnz();
        let four: usize = if stored > usize::MAX / 4 {
            usize::MAX
        } else {
            4 * stored
        };
        let budget: usize = options.work_limit.resolve(four);
        if budget == 0 || options.max_basis_rows == 0 || options.max_row_length == 0 {
            return Ok(0);
        }
        let ghost before = *model;
        let (core, left): (Vec<usize>, usize) = model.dependency_core(
            options.max_row_length,
            budget,
            expired,
        );
        let r = self.drop_dependent(model, &core, options, feasibility, left, f, expired);
        proof {
            {
                let (searches, findings) = choose|
                    searches: Seq<dependencies::Search>,
                    findings: Seq<dependencies::Finding>,
                |
                    {
                        &&& #[trigger] self.dependency_pass(
                            searches,
                            findings,
                            core@,
                            options,
                            feasibility,
                            *f,
                        )
                        &&& searches[0] == (dependencies::Search {
                            model: before,
                            basis: Seq::empty(),
                            work: left,
                        })
                        &&& searches.last().model == *model
                        &&& match r {
                            Ok(count) => count == dependencies::dropped(findings) && (
                            findings.len() == core@.len() || searches.last().work == 0
                                || findings.len() > 0 && findings.last() is Stop || call_ensures(
                                *expired,
                                (),
                                true,
                            )),
                            Err(y) => findings.len() > 0 && findings.last()
                                == dependencies::Finding::Contradiction(y),
                        }
                    };
                assert(self.core_searched(
                    before,
                    *model,
                    core@,
                    searches,
                    findings,
                    options,
                    feasibility,
                    *f,
                    r,
                    call_ensures(*expired, (), true),
                ));
            }
        }
        r
    }
}

impl<
    P: Fn(Real, Real) -> Real,
    T: Fn(Real, Real) -> Real,
    D: Fn(Real, Real) -> Real,
    H: Fn(Real, Real) -> Real,
> Arithmetic<P, T, D, H> {
    /// What a search for dependent equalities does and reports.
    pub open spec fn equality_dependencies_done<F: Fn(Real, Real, Real) -> Real, E: Fn() -> bool>(
        &self,
        before: Model,
        after: Model,
        options: DependencySettings,
        feasibility: Real,
        f: F,
        expired: E,
        r: Result<usize, Entries>,
    ) -> bool {
        &&& after.wf()
        &&& after.bounds@ == before.bounds@
        &&& ({
                let budget = options.work_limit.allowance(
                    crate::dual::fourfold(before.a@.dom().len()),
                );
                &&& budget == 0 || options.max_basis_rows == 0 || options.max_row_length == 0 ==> r
                    == Ok::<usize, Entries>(0) && after == before
                &&& budget > 0 && options.max_basis_rows > 0 && options.max_row_length > 0 ==> exists|
                    core: Seq<usize>,
                    searches: Seq<dependencies::Search>,
                    findings: Seq<dependencies::Finding>,
                | #[trigger]
                    self.core_searched(
                        before,
                        after,
                        core,
                        searches,
                        findings,
                        options,
                        feasibility,
                        f,
                        r,
                        call_ensures(expired, (), true),
                    )
            })
    }
}

} // verus!
