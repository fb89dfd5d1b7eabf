//! Combining two sparse rows entry by entry.

use crate::linked::Entries;
use crate::number::{zero, Real};
use vstd::prelude::*;

verus! {

/// Indices grow strictly.
pub open spec fn increasing(entries: Seq<(usize, Real)>) -> bool {
    forall|a: int, b: int|
        0 <= a < b < entries.len() ==> (#[trigger] entries[a]).0 < (#[trigger] entries[b]).0
}

/// The entry of an index, if there is one.
pub open spec fn entry(entries: Seq<(usize, Real)>, j: usize) -> Option<Real> {
    if exists|a: int| 0 <= a < entries.len() && (#[trigger] entries[a]).0 == j {
        Some(
            entries[choose|a: int| 0 <= a < entries.len() && (#[trigger] entries[a]).0 == j].1,
        )
    } else {
        None
    }
}

/// The value of an entry; missing entries are zero.
pub open spec fn value(entry: Option<Real>) -> Real {
    match entry {
        Some(v) => v,
        None => zero(),
    }
}

/// A zero is not stored.
pub open spec fn stored(v: Real) -> Option<Real> {
    if v.zero() {
        None
    } else {
        Some(v)
    }
}

/// Every index of either row holds what the operation gave for its two values.
pub open spec fn combines<F: Fn(Real, Real) -> Option<Real>>(
    out: Seq<(usize, Real)>,
    left: Seq<(usize, Real)>,
    right: Seq<(usize, Real)>,
    f: F,
) -> bool {
    &&& increasing(out)
    &&& forall|j: usize| #[trigger] combined_at(out, left, right, f, j)
}

pub open spec fn combined_at<F: Fn(Real, Real) -> Option<Real>>(
    out: Seq<(usize, Real)>,
    left: Seq<(usize, Real)>,
    right: Seq<(usize, Real)>,
    f: F,
    j: usize,
) -> bool {
    if entry(left, j) is None && entry(right, j) is None {
        entry(out, j) is None
    } else {
        exists|v: Real|
            call_ensures(f, (value(entry(left, j)), value(entry(right, j))), Some(v)) && entry(
                out,
                j,
            ) == #[trigger] stored(v)
    }
}

/// The operation refused the values of some index.
pub open spec fn refused<F: Fn(Real, Real) -> Option<Real>>(
    left: Seq<(usize, Real)>,
    right: Seq<(usize, Real)>,
    f: F,
) -> bool {
    exists|j: usize|
        !(entry(left, j) is None && entry(right, j) is None) && #[trigger] call_ensures(
            f,
            (value(entry(left, j)), value(entry(right, j))),
            None,
        )
}

/// An entry of an increasing list is the entry of its index.
pub proof fn entry_is(entries: Seq<(usize, Real)>, a: int)
    requires
        increasing(entries),
        0 <= a < entries.len(),
    ensures
        entry(entries, entries[a].0) == Some(entries[a].1),
{
    let j = entries[a].0;
    let b = choose|b: int| 0 <= b < entries.len() && (#[trigger] entries[b]).0 == j;
    assert(entries[a].0 == j);
    if b < a {
        assert(entries[b].0 < entries[a].0);
    } else if a < b {
        assert(entries[a].0 < entries[b].0);
    }
}

/// An index below the next one and above the previous one has no entry.
pub proof fn entry_absent(entries: Seq<(usize, Real)>, a: int, j: usize)
    requires
        increasing(entries),
        0 <= a <= entries.len(),
        a > 0 ==> entries[a - 1].0 < j,
        a < entries.len() ==> j < entries[a].0,
    ensures
        entry(entries, j) is None,
{
    if exists|b: int| 0 <= b < entries.len() && (#[trigger] entries[b]).0 == j {
        let b = choose|b: int| 0 <= b < entries.len() && (#[trigger] entries[b]).0 == j;
        if b < a - 1 {
            assert(entries[b].0 < entries[a - 1].0);
        } else if b > a {
            assert(entries[a].0 < entries[b].0);
        }
    }
}

/// Appending a larger index adds its entry and changes no other.
pub proof fn entry_pushed(entries: Seq<(usize, Real)>, last: (usize, Real), j: usize)
    requires
        increasing(entries.push(last)),
    ensures
        increasing(entries),
        entry(entries.push(last), j) == (if j == last.0 {
            Some(last.1)
        } else {
            entry(entries, j)
        }),
{
    let after = entries.push(last);
    assert forall|a: int, b: int| 0 <= a < b < entries.len() implies (#[trigger] entries[a]).0 < (
    #[trigger] entries[b]).0 by {
        assert(after[a].0 < after[b].0);
    }
    if j == last.0 {
        entry_is(after, entries.len() as int);
    } else if exists|a: int| 0 <= a < entries.len() && (#[trigger] entries[a]).0 == j {
        let a = choose|a: int| 0 <= a < entries.len() && (#[trigger] entries[a]).0 == j;
        entry_is(entries, a);
        entry_is(after, a);
        assert(after[a] == entries[a]);
    } else {
        assert forall|a: int| 0 <= a < after.len() implies (#[trigger] after[a]).0 != j by {
            if a < entries.len() {
                assert(after[a] == entries[a]);
            }
        }
    }
}

/// Combine two rows with an operation on their values. Missing entries count
/// as zero, zero results are not stored, and a refusal gives up.
pub fn combine<F: Fn(Real, Real) -> Option<Real>>(left: &Entries, right: &Entries, f: &F) -> (out:
    Option<Entries>)
    requires
        increasing(left@),
        increasing(right@),
        forall|a: Real, b: Real| #[trigger] call_requires(*f, (a, b)),
    ensures
        match out {
            Some(entries) => {
                &&& combines(entries@, left@, right@, *f)
                &&& entries@.len() <= left@.len() + right@.len()
                &&& forall|a: int|
                    0 <= a < entries@.len() ==> !(#[trigger] entries@[a]).1.zero() && (entry(
                        left@,
                        entries@[a].0,
                    ) is Some || entry(right@, entries@[a].0) is Some)
            },
            None => refused(left@, right@, *f),
        },
{
    let mut out: Entries = Vec::new();
    let mut i: usize = 0;
    let mut k: usize = 0;
    while i < left.len() || k < right.len()
        invariant
            i <= left@.len(),
            k <= right@.len(),
            increasing(left@),
            increasing(right@),
            forall|a: Real, b: Real| #[trigger] call_requires(*f, (a, b)),
            increasing(out@),
            out@.len() <= i + k,
            out@.len() > 0 && i < left@.len() ==> out@.last().0 < left@[i as int].0,
            out@.len() > 0 && k < right@.len() ==> out@.last().0 < right@[k as int].0,
            i > 0 && k < right@.len() ==> left@[i - 1].0 < right@[k as int].0,
            k > 0 && i < left@.len() ==> right@[k - 1].0 < left@[i as int].0,
            forall|j: usize|
                (i < left@.len() ==> j < left@[i as int].0) && (k < right@.len() ==> j
                    < right@[k as int].0) ==> #[trigger] combined_at(out@, left@, right@, *f, j),
            forall|a: int|
                0 <= a < out@.len() ==> !(#[trigger] out@[a]).1.zero() && (entry(
                    left@,
                    out@[a].0,
                ) is Some || entry(right@, out@[a].0) is Some),
        decreases left@.len() - i + right@.len() - k,
    {
        let ghost before = out@;
        let ghost start = (i, k);
        let take_left = i < left.len() && (k >= right.len() || left[i].0 <= right[k].0);
        let take_right = k < right.len() && (i >= left.len() || right[k].0 <= left[i].0);
        let column: usize = if take_left {
            left[i].0
        } else {
            right[k].0
        };
        let a = if take_left {
            left[i].1
        } else {
            zero()
        };
        let b = if take_right {
            right[k].1
        } else {
            zero()
        };
        proof {
            if take_left {
                entry_is(left@, i as int);
            } else {
                entry_absent(left@, i as int, column);
            }
            if take_right {
                entry_is(right@, k as int);
            } else {
                entry_absent(right@, k as int, column);
            }
            assert(value(entry(left@, column)) == a);
            assert(value(entry(right@, column)) == b);
        }
        let v = match f(a, b) {
            Some(v) => v,
            None => {
                return None;
            },
        };
        if take_left {
            i = i + 1;
        }
        if take_right {
            k = k + 1;
        }
        if !v.is_zero() {
            out.push((column, v));
        }
        proof {
            assert(stored(v) == stored(v));
            if start.0 > 0 {
                assert(start.0 < left@.len() ==> left@[start.0 - 1].0 < left@[start.0 as int].0);
            }
            if start.1 > 0 {
                assert(start.1 < right@.len() ==> right@[start.1 - 1].0
                    < right@[start.1 as int].0);
            }
            assert(start.0 + 1 < left@.len() ==> left@[start.0 as int].0 < left@[start.0 + 1].0);
            assert(start.1 + 1 < right@.len() ==> right@[start.1 as int].0
                < right@[start.1 + 1].0);
            assert(increasing(out@)) by {
                assert forall|x: int, y: int| 0 <= x < y < out@.len() implies (
                #[trigger] out@[x]).0 < (#[trigger] out@[y]).0 by {
                    if y == before.len() {
                        assert(out@[x] == before[x]);
                        if x < before.len() - 1 {
                            assert(before[x].0 < before[before.len() - 1].0);
                        }
                        assert(before.last().0 < column);
                    } else {
                        assert(out@[x] == before[x] && out@[y] == before[y]);
                    }
                }
            }
            assert forall|j: usize|
                (i < left@.len() ==> j < left@[i as int].0) && (k < right@.len() ==> j
                    < right@[k as int].0) implies #[trigger] combined_at(
                out@,
                left@,
                right@,
                *f,
                j,
            ) by {
                if !v.zero() {
                    entry_pushed(before, (column, v), j);
                }
                if j < column {
                    assert(combined_at(before, left@, right@, *f, j));
                } else if j == column {
                    if v.zero() {
                        if before.len() > 0 {
                            entry_absent(before, before.len() as int, column);
                        } else {
                            entry_absent(before, 0, column);
                        }
                    }
                    assert(entry(out@, j) == stored(v));
                    assert(call_ensures(
                        *f,
                        (value(entry(left@, j)), value(entry(right@, j))),
                        Some(v),
                    ));
                } else {
                    entry_absent(left@, i as int, j);
                    entry_absent(right@, k as int, j);
                    if before.len() > 0 {
                        entry_absent(before, before.len() as int, j);
                    } else {
                        entry_absent(before, 0, j);
                    }
                }
            }
        }
    }
    Some(out)
}

} // verus!
