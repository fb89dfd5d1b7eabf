//! Groups of items with equal keys.

use crate::order;
use crate::order::Keyed;
use vstd::prelude::*;

verus! {

/// A key of two parts.
pub type Key = (u128, u128);

pub open spec fn key_before(a: Key, b: Key) -> bool {
    a.0 < b.0 || a.0 == b.0 && a.1 < b.1
}

/// A group: two items or more under one key, by index.
pub open spec fn is_group(group: Seq<usize>, keys: Seq<Option<Key>>) -> bool {
    &&& group.len() >= 2
    &&& forall|a: int| 0 <= a < group.len() ==> (#[trigger] group[a]) < keys.len()
    &&& forall|a: int|
        0 <= a < group.len() ==> keys[(#[trigger] group[a]) as int] == keys[group[0] as int]
    &&& keys[group[0] as int] is Some
    &&& forall|a: int, b: int|
        0 <= a < b < group.len() ==> (#[trigger] group[a]) < (#[trigger] group[b])
}

/// The groups in the order of their keys, each with every item under its key.
pub open spec fn are_groups(groups: Seq<Vec<usize>>, keys: Seq<Option<Key>>) -> bool {
    &&& forall|g: int| 0 <= g < groups.len() ==> is_group(#[trigger] groups[g]@, keys)
    &&& forall|g: int, h: int|
        0 <= g < h < groups.len() ==> key_before(
            keys[(#[trigger] groups[g])@[0] as int]->Some_0,
            keys[(#[trigger] groups[h])@[0] as int]->Some_0,
        )
    &&& forall|i: int, j: int|
        0 <= i < j < keys.len() && (#[trigger] keys[i]) is Some && keys[i] == (#[trigger] keys[j])
            ==> in_group(groups, i) && in_group(groups, j)
}

pub open spec fn in_group(groups: Seq<Vec<usize>>, i: int) -> bool {
    exists|g: int| 0 <= g < groups.len() && (#[trigger] groups[g])@.contains(i as usize)
}

/// Every item with a key is listed under it, and nothing else is.
spec fn lists_items(list: Seq<Keyed>, keys: Seq<Option<Key>>, n: int) -> bool {
    &&& forall|p: int|
        0 <= p < list.len() ==> (#[trigger] list[p]).2 < n && keys[list[p].2 as int] == Some(
            (list[p].0, list[p].1),
        )
    &&& forall|i: int|
        0 <= i < n && (#[trigger] keys[i]) is Some ==> list.contains(
            (keys[i]->Some_0.0, keys[i]->Some_0.1, i as usize),
        )
    &&& list.no_duplicates()
}

fn list_items(keys: &Vec<Option<Key>>) -> (list: Vec<Keyed>)
    ensures
        lists_items(list@, keys@, keys@.len() as int),
{
    let mut list: Vec<Keyed> = Vec::new();
    let mut i: usize = 0;
    while i < keys.len()
        invariant
            i <= keys@.len(),
            lists_items(list@, keys@, i as int),
        decreases keys@.len() - i,
    {
        let ghost before = list@;
        if let Some(key) = keys[i] {
            let item: Keyed = (key.0, key.1, i);
            list.push(item);
            proof {
                assert(list@.last() == item);
                assert forall|k: int| 0 <= k < i + 1 && (#[trigger] keys@[k]) is Some implies list@.contains(
                    (keys@[k]->Some_0.0, keys@[k]->Some_0.1, k as usize),
                ) by {
                    let x = (keys@[k]->Some_0.0, keys@[k]->Some_0.1, k as usize);
                    if k < i {
                        let p = choose|p: int| 0 <= p < before.len() && before[p] == x;
                        assert(list@[p] == x);
                    } else {
                        assert(list@[list@.len() - 1] == x);
                    }
                }
            }
        }
        i = i + 1;
    }
    list
}

/// Group the items that have equal keys. Items without a key, and those alone
/// under theirs, are in no group.
pub fn candidate_groups(keys: &Vec<Option<Key>>) -> (groups: Vec<Vec<usize>>)
    ensures
        are_groups(groups@, keys@),
{
    let mut list = list_items(keys);
    let ghost raw = list@;
    order::sort_keyed(&mut list);
    proof {
        same_keyed(list@, raw);
        assert forall|p: int| 0 <= p < list@.len() implies (#[trigger] list@[p]).2 < keys@.len()
            && keys@[list@[p].2 as int] == Some((list@[p].0, list@[p].1)) by {
            assert(raw.contains(list@[p]));
            let q = choose|q: int| 0 <= q < raw.len() && raw[q] == list@[p];
            assert(raw[q].2 < keys@.len());
        }
        assert(lists_items(list@, keys@, keys@.len() as int));
    }
    let mut groups: Vec<Vec<usize>> = Vec::new();
    let mut start: usize = 0;
    while start < list.len()
        invariant
            start <= list@.len(),
            order::keyed_ascend(list@),
            lists_items(list@, keys@, keys@.len() as int),
            0 < start < list@.len() ==> key_before(
                (list@[start - 1].0, list@[start - 1].1),
                (list@[start as int].0, list@[start as int].1),
            ),
            forall|g: int| 0 <= g < groups@.len() ==> is_group(#[trigger] groups@[g]@, keys@),
            forall|g: int, h: int|
                0 <= g < h < groups@.len() ==> key_before(
                    keys@[(#[trigger] groups@[g])@[0] as int]->Some_0,
                    keys@[(#[trigger] groups@[h])@[0] as int]->Some_0,
                ),
            forall|g: int|
                0 <= g < groups@.len() ==> start > 0 && !key_before(
                    (list@[start - 1].0, list@[start - 1].1),
                    keys@[(#[trigger] groups@[g])@[0] as int]->Some_0,
                ),
            forall|p: int, q: int|
                0 <= p < start && 0 <= q < list@.len() && p != q && (#[trigger] list@[p]).0 == (
                #[trigger] list@[q]).0 && list@[p].1 == list@[q].1 ==> in_group(
                    groups@,
                    list@[p].2 as int,
                ),
        decreases list@.len() - start,
    {
        let first = list[start];
        let mut group: Vec<usize> = Vec::new();
        group.push(first.2);
        let mut end: usize = start + 1;
        while end < list.len() && list[end].0 == first.0 && list[end].1 == first.1
            invariant
                start < end <= list@.len(),
                first == list@[start as int],
                group@.len() == end - start,
                forall|t: int|
                    0 <= t < group@.len() ==> (#[trigger] group@[t]) == list@[start + t].2,
                forall|p: int|
                    start <= p < end ==> (#[trigger] list@[p]).0 == first.0 && list@[p].1
                        == first.1,
            decreases list@.len() - end,
        {
            group.push(list[end].2);
            end = end + 1;
        }
        proof {
            if end < list@.len() {
                assert(order::keyed_before(list@[end - 1], list@[end as int]));
            }
        }
        let ghost before = groups@;
        if end - start > 1 {
            proof {
                assert forall|a: int, b: int| 0 <= a < b < group@.len() implies (
                #[trigger] group@[a]) < (#[trigger] group@[b]) by {
                    assert(order::keyed_before(list@[start + a], list@[start + b]));
                    assert(list@[start + a] != list@[start + b]);
                }
                assert forall|a: int| 0 <= a < group@.len() implies (#[trigger] group@[a])
                    < keys@.len() && keys@[group@[a] as int] == keys@[group@[0] as int] by {
                    assert(list@[start + a].2 < keys@.len());
                    assert(list@[start + 0].2 < keys@.len());
                }
                assert(keys@[group@[0] as int] == Some((first.0, first.1)));
                assert(is_group(group@, keys@));
            }
            groups.push(group);
        }
        proof {
            if end - start > 1 {
                let added = groups@.last();
                assert forall|g: int, h: int| 0 <= g < h < groups@.len() implies key_before(
                    keys@[(#[trigger] groups@[g])@[0] as int]->Some_0,
                    keys@[(#[trigger] groups@[h])@[0] as int]->Some_0,
                ) by {
                    if h == before.len() {
                        assert(groups@[g] == before[g]);
                        assert(start > 0);
                    } else {
                        assert(groups@[g] == before[g] && groups@[h] == before[h]);
                    }
                }
            }
            assert forall|g: int| 0 <= g < groups@.len() implies end > 0 && !key_before(
                (list@[end - 1].0, list@[end - 1].1),
                keys@[(#[trigger] groups@[g])@[0] as int]->Some_0,
            ) by {
                if g < before.len() {
                    assert(groups@[g] == before[g]);
                }
            }
            assert forall|p: int, q: int|
                0 <= p < end && 0 <= q < list@.len() && p != q && (#[trigger] list@[p]).0 == (
                #[trigger] list@[q]).0 && list@[p].1 == list@[q].1 implies in_group(
                groups@,
                list@[p].2 as int,
            ) by {
                if p < start {
                    assert(in_group(before, list@[p].2 as int));
                    let g = choose|g: int|
                        0 <= g < before.len() && (#[trigger] before[g])@.contains(
                            list@[p].2 as int as usize,
                        );
                    assert(groups@[g] == before[g]);
                } else {
                    assert(start <= q < end) by {
                        if q < start {
                            assert(order::keyed_before(list@[q], list@[start - 1]));
                            assert(order::keyed_before(list@[start - 1], list@[start as int]));
                        } else if q >= end {
                            assert(order::keyed_before(list@[end as int], list@[q]));
                            assert(order::keyed_before(list@[end - 1], list@[end as int]));
                        }
                    }
                    let g = groups@.len() - 1;
                    assert(groups@[g]@[p - start] == list@[p].2);
                    assert(groups@[g]@.contains(list@[p].2));
                }
            }
        }
        start = end;
    }
    assert(keys.len() == keys@.len());
    proof {
        assert forall|i: int, j: int|
            0 <= i < j < keys@.len() && (#[trigger] keys@[i]) is Some && keys@[i] == (
            #[trigger] keys@[j]) implies in_group(groups@, i) && in_group(groups@, j) by {
            let key = keys@[i]->Some_0;
            assert(list@.contains((key.0, key.1, i as usize)));
            assert(list@.contains((key.0, key.1, j as usize)));
            let p = choose|p: int|
                0 <= p < list@.len() && list@[p] == (key.0, key.1, i as usize);
            let q = choose|q: int|
                0 <= q < list@.len() && list@[q] == (key.0, key.1, j as usize);
            assert(p != q);
            assert(in_group(groups@, list@[p].2 as int));
            assert(in_group(groups@, list@[q].2 as int));
        }
    }
    groups
}

pub(crate) proof fn same_keyed(left: Seq<Keyed>, right: Seq<Keyed>)
    requires
        left.to_multiset() == right.to_multiset(),
        right.no_duplicates(),
    ensures
        forall|x: Keyed| left.contains(x) <==> right.contains(x),
        left.no_duplicates(),
{
    broadcast use vstd::seq_lib::group_to_multiset_ensures;

    assert(left.len() == left.to_multiset().len());
    assert(right.len() == right.to_multiset().len());
    assert forall|x: Keyed| left.contains(x) <==> right.contains(x) by {
        assert(left.contains(x) <==> left.to_multiset().count(x) > 0);
        assert(right.contains(x) <==> right.to_multiset().count(x) > 0);
    }
    right.lemma_multiset_has_no_duplicates();
    left.lemma_multiset_has_no_duplicates_conv();
}

} // verus!
