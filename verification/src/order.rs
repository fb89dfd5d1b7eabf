//! Sorting and deduplicating indices.

use crate::merge;
use crate::number::Real;
use vstd::prelude::*;

verus! {

pub open spec fn ascending(values: Seq<usize>) -> bool {
    forall|a: int, b: int|
        0 <= a <= b < values.len() ==> (#[trigger] values[a]) <= (#[trigger] values[b])
}

pub open spec fn strictly_ascending(values: Seq<usize>) -> bool {
    forall|a: int, b: int|
        0 <= a < b < values.len() ==> (#[trigger] values[a]) < (#[trigger] values[b])
}

/// Calls `slice::sort_unstable` of the standard library on a vector of
/// indices. Claimed of it: the same values, as often each, in ascending order.
#[verifier::external_body]
pub(crate) fn sort_unstable(values: &mut Vec<usize>)
    ensures
        ascending(final(values)@),
        final(values)@.to_multiset() == old(values)@.to_multiset(),
{
    values.sort_unstable();
}

/// An index under a key of two parts.
pub type Keyed = (u128, u128, usize);

/// By the parts of the key, then by index.
pub open spec fn keyed_before(a: Keyed, b: Keyed) -> bool {
    if a.0 != b.0 {
        a.0 < b.0
    } else if a.1 != b.1 {
        a.1 < b.1
    } else {
        a.2 <= b.2
    }
}

pub open spec fn keyed_ascend(list: Seq<Keyed>) -> bool {
    forall|a: int, b: int|
        0 <= a <= b < list.len() ==> keyed_before(#[trigger] list[a], #[trigger] list[b])
}

/// Calls `slice::sort_unstable` of the standard library on indices under keys.
/// Claimed of it: the same triples, as often each, in ascending order.
#[verifier::external_body]
pub(crate) fn sort_keyed(list: &mut Vec<Keyed>)
    ensures
        keyed_ascend(final(list)@),
        final(list)@.to_multiset() == old(list)@.to_multiset(),
{
    list.sort_unstable();
}

/// Indices of entries grow, possibly with repetitions.
pub open spec fn ascending_rows(entries: Seq<(usize, Real)>) -> bool {
    forall|a: int, b: int|
        0 <= a <= b < entries.len() ==> (#[trigger] entries[a]).0 <= (#[trigger] entries[b]).0
}

/// Calls `slice::sort_unstable_by_key` of the standard library with the index
/// of an entry as its key. Claimed of it: the same entries, as often each, by
/// ascending index.
#[verifier::external_body]
pub(crate) fn sort_by_row(entries: &mut Vec<(usize, Real)>)
    ensures
        ascending_rows(final(entries)@),
        final(entries)@.to_multiset() == old(entries)@.to_multiset(),
{
    entries.sort_unstable_by_key(|entry| entry.0);
}

/// Equal multisets of entries have equal members, and their distinctness agrees.
pub proof fn same_entries(left: Seq<(usize, Real)>, right: Seq<(usize, Real)>)
    requires
        left.to_multiset() == right.to_multiset(),
    ensures
        left.len() == right.len(),
        forall|e: (usize, Real)| left.contains(e) <==> right.contains(e),
        right.no_duplicates() ==> left.no_duplicates(),
{
    broadcast use vstd::seq_lib::group_to_multiset_ensures;

    assert(left.len() == left.to_multiset().len());
    assert(right.len() == right.to_multiset().len());
    assert forall|e: (usize, Real)| left.contains(e) <==> right.contains(e) by {
        assert(left.contains(e) <==> left.to_multiset().count(e) > 0);
        assert(right.contains(e) <==> right.to_multiset().count(e) > 0);
    }
    if right.no_duplicates() {
        right.lemma_multiset_has_no_duplicates();
        left.lemma_multiset_has_no_duplicates_conv();
    }
}

/// Equal multisets have equal members.
pub proof fn same_members(left: Seq<usize>, right: Seq<usize>)
    requires
        left.to_multiset() == right.to_multiset(),
    ensures
        left.len() == right.len(),
        forall|k: usize| left.contains(k) <==> right.contains(k),
{
    broadcast use vstd::seq_lib::group_to_multiset_ensures;

    assert(left.len() == left.to_multiset().len());
    assert(right.len() == right.to_multiset().len());
    assert forall|k: usize| left.contains(k) <==> right.contains(k) by {
        assert(left.contains(k) <==> left.to_multiset().count(k) > 0);
        assert(right.contains(k) <==> right.to_multiset().count(k) > 0);
    }
}

/// The distinct values in ascending order.
pub fn sorted_distinct(values: Vec<usize>) -> (distinct: Vec<usize>)
    ensures
        strictly_ascending(distinct@),
        forall|k: usize| distinct@.contains(k) <==> values@.contains(k),
{
    let ghost start = values@;
    let mut values = values;
    sort_unstable(&mut values);
    proof {
        same_members(values@, start);
    }
    let mut distinct: Vec<usize> = Vec::new();
    let mut at: usize = 0;
    while at < values.len()
        invariant
            at <= values@.len(),
            ascending(values@),
            strictly_ascending(distinct@),
            distinct@.len() > 0 ==> at > 0 && distinct@.last() == values@[at - 1],
            at > 0 ==> distinct@.len() > 0,
            forall|k: usize| distinct@.contains(k) <==> values@.take(at as int).contains(k),
        decreases values@.len() - at,
    {
        let value: usize = values[at];
        let ghost before = distinct@;
        if distinct.len() == 0 || distinct[distinct.len() - 1] != value {
            distinct.push(value);
        }
        proof {
            let seen = values@.take(at as int);
            let more = values@.take(at + 1);
            assert(more =~= seen.push(value));
            assert(more[at as int] == value);
            assert forall|k: usize| distinct@.contains(k) <==> more.contains(k) by {
                if seen.contains(k) {
                    let i = choose|i: int| 0 <= i < seen.len() && seen[i] == k;
                    assert(more[i] == k);
                    assert(before.contains(k));
                    let j = choose|j: int| 0 <= j < before.len() && before[j] == k;
                    assert(distinct@[j] == k);
                }
                if more.contains(k) && !seen.contains(k) {
                    let i = choose|i: int| 0 <= i < more.len() && more[i] == k;
                    assert(i == at);
                    assert(distinct@[distinct@.len() - 1] == value);
                }
                if distinct@.contains(k) && !before.contains(k) {
                    assert(k == value);
                }
            }
        }
        at = at + 1;
    }
    proof {
        assert(values@.take(at as int) =~= values@);
    }
    distinct
}

/// Sorting a list with one entry per index gives the entries of a lookup.
pub proof fn sorted_lookup(
    sorted: Seq<(usize, Real)>,
    list: Seq<(usize, Real)>,
    want: spec_fn(usize) -> Option<Real>,
)
    requires
        ascending_rows(sorted),
        sorted.to_multiset() == list.to_multiset(),
        forall|k: int, l: int|
            0 <= k < list.len() && 0 <= l < list.len() && k != l ==> (#[trigger] list[k]).0 != (
            #[trigger] list[l]).0,
        forall|at: usize, w: Real| #[trigger] list.contains((at, w)) <==> want(at) == Some(w),
    ensures
        merge::increasing(sorted),
        forall|at: usize| #[trigger] merge::entry(sorted, at) == want(at),
{
    assert forall|k: int, l: int| 0 <= k < list.len() && 0 <= l < list.len() && k
        != l implies list[k] != list[l] by {
        assert(list[k].0 != list[l].0);
    }
    same_entries(sorted, list);
    assert forall|a: int, b: int| 0 <= a < b < sorted.len() implies (#[trigger] sorted[a]).0 < (
    #[trigger] sorted[b]).0 by {
        assert(sorted[a].0 <= sorted[b].0);
        if sorted[a].0 == sorted[b].0 {
            assert(sorted.contains(sorted[a]) && sorted.contains(sorted[b]));
            assert(list.contains(sorted[a]) && list.contains(sorted[b]));
            let k = choose|k: int| 0 <= k < list.len() && list[k] == sorted[a];
            let l = choose|l: int| 0 <= l < list.len() && list[l] == sorted[b];
            assert(sorted[a] != sorted[b]);
            assert(k != l);
            assert(list[k].0 != list[l].0);
        }
    }
    assert forall|at: usize| #[trigger] merge::entry(sorted, at) == want(at) by {
        if exists|a: int| 0 <= a < sorted.len() && (#[trigger] sorted[a]).0 == at {
            let a = choose|a: int| 0 <= a < sorted.len() && (#[trigger] sorted[a]).0 == at;
            merge::entry_is(sorted, a);
            assert(sorted.contains((sorted[a].0, sorted[a].1)));
            assert(list.contains((sorted[a].0, sorted[a].1)));
        } else if want(at) is Some {
            let w = want(at)->0;
            assert(list.contains((at, w)));
            assert(sorted.contains((at, w)));
            let a = choose|a: int| 0 <= a < sorted.len() && sorted[a] == (at, w);
            assert(sorted[a].0 == at);
        }
    }
}

} // verus!
