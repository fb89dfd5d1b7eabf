//! Stable sorting by lists of strings.

use crate::strings;
use vstd::prelude::*;

verus! {

/// Order by the first text that differs.
pub open spec fn list_precedes(a: Seq<Seq<char>>, b: Seq<Seq<char>>) -> bool
    decreases a.len(),
{
    if b.len() == 0 {
        false
    } else if a.len() == 0 {
        true
    } else if a[0] == b[0] {
        list_precedes(a.skip(1), b.skip(1))
    } else {
        strings::precedes(a[0], b[0])
    }
}

proof fn lists_are_total(a: Seq<Seq<char>>, b: Seq<Seq<char>>)
    ensures
        a == b || list_precedes(a, b) || list_precedes(b, a),
        !(list_precedes(a, b) && list_precedes(b, a)),
    decreases a.len(),
{
    if a.len() > 0 && b.len() > 0 {
        strings::order_is_total(a[0], b[0]);
        if a[0] == b[0] {
            lists_are_total(a.skip(1), b.skip(1));
            if a.skip(1) == b.skip(1) {
                assert(a =~= seq![a[0]] + a.skip(1));
                assert(b =~= seq![b[0]] + b.skip(1));
            }
        }
    } else if a.len() == 0 && b.len() == 0 {
        assert(a =~= b);
    }
}

proof fn lists_are_transitive(a: Seq<Seq<char>>, b: Seq<Seq<char>>, c: Seq<Seq<char>>)
    requires
        list_precedes(a, b),
        list_precedes(b, c),
    ensures
        list_precedes(a, c),
    decreases a.len(),
{
    if a.len() > 0 {
        if a[0] == b[0] && b[0] == c[0] {
            lists_are_transitive(a.skip(1), b.skip(1), c.skip(1));
        } else if a[0] != b[0] && b[0] != c[0] {
            strings::order_is_transitive(a[0], b[0], c[0]);
            if a[0] == c[0] {
                strings::order_is_strict(a[0]);
            }
        }
    }
}

fn list_before(a: &Vec<String>, b: &Vec<String>) -> (r: bool)
    ensures
        r == list_precedes(strings::strings(a@), strings::strings(b@)),
{
    let ghost left = strings::strings(a@);
    let ghost right = strings::strings(b@);
    let mut k: usize = 0;
    assert(left.skip(0) =~= left);
    assert(right.skip(0) =~= right);
    while k < a.len() && k < b.len() && strings::same(a[k].as_str(), b[k].as_str())
        invariant
            k <= a@.len(),
            k <= b@.len(),
            left == strings::strings(a@),
            right == strings::strings(b@),
            list_precedes(left, right) == list_precedes(left.skip(k as int), right.skip(k as int)),
        decreases a@.len() - k,
    {
        assert(left.skip(k as int)[0] == a@[k as int]@);
        assert(right.skip(k as int)[0] == b@[k as int]@);
        assert(left.skip(k as int).skip(1) =~= left.skip(k + 1));
        assert(right.skip(k as int).skip(1) =~= right.skip(k + 1));
        k = k + 1;
    }
    if k >= b.len() {
        return false;
    }
    if k >= a.len() {
        return true;
    }
    assert(left.skip(k as int)[0] == a@[k as int]@);
    assert(right.skip(k as int)[0] == b@[k as int]@);
    strings::before(a[k].as_str(), b[k].as_str())
}

/// One place comes before another: by its key, or by position for equal keys.
pub open spec fn comes_before(keys: Seq<Seq<Seq<char>>>, i: int, j: int) -> bool {
    list_precedes(keys[i], keys[j]) || (keys[i] == keys[j] && i < j)
}

/// All places, each once, in order.
pub open spec fn is_order(order: Seq<usize>, keys: Seq<Seq<Seq<char>>>, n: nat) -> bool {
    &&& order.len() == n
    &&& forall|i: int| 0 <= i < n ==> (#[trigger] order[i]) < n
    &&& forall|i: int, j: int|
        0 <= i < j < n ==> comes_before(
            keys,
            (#[trigger] order[i]) as int,
            (#[trigger] order[j]) as int,
        )
}

/// An order names no place twice.
pub proof fn order_is_distinct(order: Seq<usize>, keys: Seq<Seq<Seq<char>>>, n: nat)
    requires
        is_order(order, keys, n),
    ensures
        order.no_duplicates(),
{
    assert forall|i: int, j: int|
        0 <= i < order.len() && 0 <= j < order.len() && i != j implies order[i] != order[j] by {
        let (a, b) = if i < j {
            (i, j)
        } else {
            (j, i)
        };
        assert(comes_before(keys, order[a] as int, order[b] as int));
        lists_are_total(keys[order[a] as int], keys[order[b] as int]);
    }
}

/// The stable order of items by their keys.
pub fn order(keys: &Vec<Vec<String>>) -> (out: Vec<usize>)
    ensures
        is_order(out@, strings::grid(keys@), keys@.len()),
{
    let ghost all = strings::grid(keys@);
    let mut out: Vec<usize> = Vec::new();
    let mut n: usize = 0;
    while n < keys.len()
        invariant
            n <= keys@.len(),
            all == strings::grid(keys@),
            is_order(out@, all, n as nat),
        decreases keys@.len() - n,
    {
        let mut at: usize = n;
        while at > 0 && list_before(&keys[n], &keys[out[at - 1]])
            invariant
                at <= n < keys@.len(),
                all == strings::grid(keys@),
                is_order(out@, all, n as nat),
                forall|i: int|
                    at <= i < n ==> list_precedes(
                        all[n as int],
                        all[(#[trigger] out@[i]) as int],
                    ),
            decreases at,
        {
            assert(out@[at - 1] < n);
            assert(all[out@[at - 1] as int] == strings::strings(keys@[out@[at - 1] as int]@));
            at = at - 1;
        }
        let ghost before = out@;
        proof {
            if at > 0 {
                assert(out@[at - 1] < n);
                assert(all[out@[at - 1] as int] == strings::strings(
                    keys@[out@[at - 1] as int]@,
                ));
            }
        }
        out.insert(at, n);
        proof {
            assert forall|i: int, j: int| 0 <= i < j < n + 1 implies comes_before(
                all,
                (#[trigger] out@[i]) as int,
                (#[trigger] out@[j]) as int,
            ) by {
                if j < at {
                    assert(out@[i] == before[i] && out@[j] == before[j]);
                } else if j == at {
                    assert(out@[i] == before[i] && before[i] < n);
                    let top = before[at - 1] as int;
                    lists_are_total(all[top], all[n as int]);
                    assert(!list_precedes(all[n as int], all[top]));
                    if i < at - 1 {
                        assert(comes_before(all, before[i] as int, before[at - 1] as int));
                        if list_precedes(all[before[i] as int], all[top]) && list_precedes(
                            all[top],
                            all[n as int],
                        ) {
                            lists_are_transitive(
                                all[before[i] as int],
                                all[top],
                                all[n as int],
                            );
                        }
                    }
                } else if i < at {
                    assert(out@[i] == before[i] && out@[j] == before[j - 1]);
                } else if i == at {
                    assert(out@[j] == before[j - 1]);
                } else {
                    assert(out@[i] == before[i - 1] && out@[j] == before[j - 1]);
                }
            }
            assert forall|i: int| 0 <= i < n + 1 implies (#[trigger] out@[i]) < n + 1 by {
                if i < at {
                    assert(out@[i] == before[i]);
                } else if i > at {
                    assert(out@[i] == before[i - 1]);
                }
            }
        }
        n = n + 1;
    }
    out
}

/// Two items with one key exist exactly where neighbours in order have one.
pub proof fn duplicates_are_neighbours(
    order: Seq<usize>,
    keys: Seq<Seq<Seq<char>>>,
    n: nat,
    i: int,
    j: int,
)
    requires
        is_order(order, keys, n),
        0 <= i < j < n,
        keys[order[i] as int] == keys[order[j] as int],
    ensures
        keys[order[i] as int] == keys[order[i + 1] as int],
{
    if i + 1 < j {
        let (a, b, c) = (
            keys[order[i] as int],
            keys[order[i + 1] as int],
            keys[order[j] as int],
        );
        assert(comes_before(keys, order[i] as int, order[i + 1] as int));
        assert(comes_before(keys, order[i + 1] as int, order[j] as int));
        lists_are_total(a, b);
        lists_are_total(b, c);
        if a != b {
            assert(list_precedes(a, b));
            if b != c {
                lists_are_transitive(a, b, c);
                lists_are_total(a, c);
            }
        }
    }
}

/// The first neighbours in order with one key.
pub fn first_repeat(order: &Vec<usize>, keys: &Vec<Vec<String>>) -> (r: Option<usize>)
    requires
        is_order(order@, strings::grid(keys@), keys@.len()),
    ensures
        match r {
            Some(k) => {
                &&& k + 1 < order@.len()
                &&& strings::grid(keys@)[order@[k as int] as int] == strings::grid(
                    keys@,
                )[order@[k + 1] as int]
                &&& forall|i: int|
                    0 <= i < k ==> strings::grid(keys@)[(#[trigger] order@[i]) as int]
                        != strings::grid(keys@)[order@[i + 1] as int]
            },
            None => forall|i: int, j: int|
                0 <= i < j < keys@.len() ==> #[trigger] strings::grid(keys@)[i]
                    != #[trigger] strings::grid(keys@)[j],
        },
{
    let ghost all = strings::grid(keys@);
    let mut k: usize = 0;
    while order.len() > 0 && k < order.len() - 1
        invariant
            k < order@.len() || k == 0,
            all == strings::grid(keys@),
            is_order(order@, all, keys@.len()),
            forall|i: int|
                0 <= i < k ==> all[(#[trigger] order@[i]) as int] != all[order@[i + 1] as int],
        decreases order@.len() - k,
    {
        let (a, b): (usize, usize) = (order[k], order[k + 1]);
        assert(order@[k as int] < keys@.len() && order@[k + 1] < keys@.len());
        if !list_before(&keys[a], &keys[b]) {
            proof {
                assert(comes_before(all, a as int, b as int));
            }
            return Some(k);
        }
        proof {
            lists_are_total(all[a as int], all[b as int]);
        }
        k = k + 1;
    }
    proof {
        assert forall|i: int, j: int| 0 <= i < j < keys@.len() implies #[trigger] all[i]
            != #[trigger] all[j] by {
            if all[i] == all[j] {
                let n = keys@.len();
                positions(order@, all, n, i);
                positions(order@, all, n, j);
                let p = choose|p: int| 0 <= p < n && order@[p] == i;
                let q = choose|q: int| 0 <= q < n && order@[q] == j;
                if p < q {
                    duplicates_are_neighbours(order@, all, n, p, q);
                } else {
                    duplicates_are_neighbours(order@, all, n, q, p);
                }
            }
        }
    }
    None
}

/// Every place occurs in an order.
proof fn positions(order: Seq<usize>, keys: Seq<Seq<Seq<char>>>, n: nat, i: int)
    requires
        is_order(order, keys, n),
        0 <= i < n,
    ensures
        exists|p: int| 0 <= p < n && order[p] == i,
{
    order_is_distinct(order, keys, n);
    let ints = order.map_values(|v: usize| v as int);
    let set = ints.to_set();
    assert(ints.no_duplicates()) by {
        assert forall|a: int, b: int|
            0 <= a < ints.len() && 0 <= b < ints.len() && a != b implies ints[a] != ints[b] by {
            assert(order[a] != order[b]);
        }
    }
    ints.unique_seq_to_set();
    let full = vstd::set_lib::set_int_range(0, n as int);
    vstd::set_lib::lemma_int_range(0, n as int);
    assert(set.subset_of(full)) by {
        assert forall|v: int| set.contains(v) implies full.contains(v) by {
            let k = choose|k: int| 0 <= k < ints.len() && ints[k] == v;
            assert(order[k] < n);
        }
    }
    vstd::set_lib::lemma_subset_equality(set, full);
    assert(set.contains(i));
    let p = choose|p: int| 0 <= p < ints.len() && ints[p] == i;
    assert(order[p] == i);
}

} // verus!
