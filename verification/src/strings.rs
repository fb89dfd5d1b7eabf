//! Lists of strings: order, sorted sets, joining.

use crate::text;
use vstd::prelude::*;

verus! {

/// The characters of each string of a list.
pub open spec fn strings(list: Seq<String>) -> Seq<Seq<char>> {
    Seq::new(list.len(), |k: int| list[k]@)
}

/// The characters of each string of each row.
pub open spec fn grid(rows: Seq<Vec<String>>) -> Seq<Seq<Seq<char>>> {
    Seq::new(rows.len(), |k: int| strings(rows[k]@))
}

/// Alphabetical order by character code.
pub open spec fn precedes(a: Seq<char>, b: Seq<char>) -> bool
    decreases a.len(),
{
    if b.len() == 0 {
        false
    } else if a.len() == 0 {
        true
    } else if a[0] == b[0] {
        precedes(a.skip(1), b.skip(1))
    } else {
        (a[0] as int) < (b[0] as int)
    }
}

/// No text precedes itself.
pub proof fn order_is_strict(a: Seq<char>)
    ensures
        !precedes(a, a),
    decreases a.len(),
{
    if a.len() > 0 {
        order_is_strict(a.skip(1));
    }
}

/// Of two different texts, one precedes the other.
pub proof fn order_is_total(a: Seq<char>, b: Seq<char>)
    ensures
        a == b || precedes(a, b) || precedes(b, a),
        !(precedes(a, b) && precedes(b, a)),
    decreases a.len(),
{
    if a.len() > 0 && b.len() > 0 {
        if a[0] == b[0] {
            order_is_total(a.skip(1), b.skip(1));
            if a.skip(1) == b.skip(1) {
                assert(a =~= seq![a[0]] + a.skip(1));
                assert(b =~= seq![b[0]] + b.skip(1));
            }
        } else {
            assert(a[0] as int != b[0] as int);
        }
    } else if a.len() == 0 && b.len() == 0 {
        assert(a =~= b);
    }
}

/// The order is transitive.
pub proof fn order_is_transitive(a: Seq<char>, b: Seq<char>, c: Seq<char>)
    requires
        precedes(a, b),
        precedes(b, c),
    ensures
        precedes(a, c),
    decreases a.len(),
{
    if a.len() > 0 && a[0] == b[0] && b[0] == c[0] {
        order_is_transitive(a.skip(1), b.skip(1), c.skip(1));
    }
}

/// Strictly increasing.
pub open spec fn ascending(list: Seq<Seq<char>>) -> bool {
    forall|i: int, j: int|
        0 <= i < j < list.len() ==> precedes(#[trigger] list[i], #[trigger] list[j])
}

/// An ascending list holds nothing twice.
pub proof fn ascending_is_distinct(list: Seq<Seq<char>>)
    requires
        ascending(list),
    ensures
        list.no_duplicates(),
{
    assert forall|i: int, j: int|
        0 <= i < list.len() && 0 <= j < list.len() && i != j implies list[i] != list[j] by {
        order_is_strict(list[i]);
        if i < j {
            assert(precedes(list[i], list[j]));
        } else {
            assert(precedes(list[j], list[i]));
        }
    }
}

pub fn same(a: &str, b: &str) -> (r: bool)
    ensures
        r == (a@ == b@),
{
    let left = text::to_chars(a);
    let right = text::to_chars(b);
    text::same(&left, &right)
}

pub fn copy(a: &str) -> (r: String)
    ensures
        r@ == a@,
{
    let chars = text::to_chars(a);
    text::to_text(&chars)
}

pub fn copies(list: &Vec<String>) -> (out: Vec<String>)
    ensures
        strings(out@) == strings(list@),
{
    let mut out: Vec<String> = Vec::new();
    let mut k: usize = 0;
    while k < list.len()
        invariant
            k <= list@.len(),
            strings(out@) == strings(list@).take(k as int),
        decreases list@.len() - k,
    {
        let ghost earlier = strings(out@);
        out.push(copy(list[k].as_str()));
        k = k + 1;
        assert(strings(out@) =~= earlier.push(list@[k - 1]@));
        assert(strings(out@) =~= strings(list@).take(k as int));
    }
    assert(strings(list@).take(k as int) =~= strings(list@));
    out
}

fn code(c: char) -> (n: u32)
    ensures
        n == c as int,
{
    c as u32
}

pub fn before(a: &str, b: &str) -> (r: bool)
    ensures
        r == precedes(a@, b@),
{
    let left = text::to_chars(a);
    let right = text::to_chars(b);
    let mut k: usize = 0;
    assert(left@.skip(0) =~= left@);
    assert(right@.skip(0) =~= right@);
    while k < left.len() && k < right.len() && left[k] == right[k]
        invariant
            k <= left@.len(),
            k <= right@.len(),
            left@ == a@,
            right@ == b@,
            precedes(a@, b@) == precedes(left@.skip(k as int), right@.skip(k as int)),
        decreases left@.len() - k,
    {
        assert(left@.skip(k as int)[0] == left@[k as int]);
        assert(right@.skip(k as int)[0] == right@[k as int]);
        assert(left@.skip(k as int).skip(1) =~= left@.skip(k + 1));
        assert(right@.skip(k as int).skip(1) =~= right@.skip(k + 1));
        k = k + 1;
    }
    if k >= right.len() {
        return false;
    }
    if k >= left.len() {
        return true;
    }
    assert(left@.skip(k as int)[0] == left@[k as int]);
    assert(right@.skip(k as int)[0] == right@[k as int]);
    code(left[k]) < code(right[k])
}

/// Where a string stands in an ascending list, or where it belongs.
pub fn place(list: &Vec<String>, name: &str) -> (r: (bool, usize))
    requires
        ascending(strings(list@)),
    ensures
        r.1 <= list@.len(),
        r.0 == strings(list@).contains(name@),
        r.0 ==> r.1 < list@.len() && list@[r.1 as int]@ == name@,
        forall|k: int| 0 <= k < r.1 ==> precedes(#[trigger] strings(list@)[k], name@),
        !r.0 ==> forall|k: int|
            r.1 <= k < list@.len() ==> precedes(name@, #[trigger] strings(list@)[k]),
{
    let ghost all = strings(list@);
    let mut k: usize = 0;
    while k < list.len() && before(list[k].as_str(), name)
        invariant
            k <= list@.len(),
            all == strings(list@),
            forall|i: int| 0 <= i < k ==> precedes(#[trigger] all[i], name@),
        decreases list@.len() - k,
    {
        assert(all[k as int] == list@[k as int]@);
        k = k + 1;
    }
    proof {
        order_is_strict(name@);
    }
    if k < list.len() && same(list[k].as_str(), name) {
        assert(all[k as int] == name@);
        return (true, k);
    }
    proof {
        if k < list@.len() {
            assert(all[k as int] == list@[k as int]@);
            order_is_total(all[k as int], name@);
            assert forall|i: int| k <= i < all.len() implies precedes(
                name@,
                #[trigger] all[i],
            ) by {
                if i > k {
                    order_is_transitive(name@, all[k as int], all[i]);
                }
            }
        }
        if all.contains(name@) {
            let i = choose|i: int| 0 <= i < all.len() && all[i] == name@;
            assert(precedes(all[i], name@) || precedes(name@, all[i]));
        }
    }
    (false, k)
}

/// Add a string to an ascending list.
pub fn insert(list: &mut Vec<String>, name: &str)
    requires
        ascending(strings(old(list)@)),
    ensures
        ascending(strings(final(list)@)),
        strings(final(list)@).to_set() == strings(old(list)@).to_set().insert(name@),
{
    let ghost before = strings(list@);
    let (found, at): (bool, usize) = place(list, name);
    if found {
        assert(before.to_set().insert(name@) =~= before.to_set());
        return;
    }
    list.insert(at, copy(name));
    proof {
        let after = strings(list@);
        assert(after =~= before.insert(at as int, name@));
        assert forall|i: int, j: int| 0 <= i < j < after.len() implies precedes(
            #[trigger] after[i],
            #[trigger] after[j],
        ) by {
            if j < at {
                assert(after[i] == before[i] && after[j] == before[j]);
            } else if j == at {
                assert(after[i] == before[i]);
            } else if i < at {
                assert(after[i] == before[i] && after[j] == before[j - 1]);
            } else if i == at {
                assert(after[j] == before[j - 1]);
            } else {
                assert(after[i] == before[i - 1] && after[j] == before[j - 1]);
            }
        }
        assert(after.to_set() =~= before.to_set().insert(name@)) by {
            assert forall|s: Seq<char>| after.contains(s) implies before.contains(s) || s == name@ by {
                let k = choose|k: int| 0 <= k < after.len() && after[k] == s;
                if k < at {
                    assert(before[k] == s);
                } else if k > at {
                    assert(before[k - 1] == s);
                }
            }
            assert forall|s: Seq<char>| before.contains(s) implies after.contains(s) by {
                let k = choose|k: int| 0 <= k < before.len() && before[k] == s;
                if k < at {
                    assert(after[k] == s);
                } else {
                    assert(after[k + 1] == s);
                }
            }
            assert(after[at as int] == name@);
        }
    }
}

/// Texts one after another, with a separator between neighbours.
pub open spec fn joined(list: Seq<Seq<char>>, separator: Seq<char>) -> Seq<char>
    decreases list.len(),
{
    if list.len() == 0 {
        Seq::empty()
    } else if list.len() == 1 {
        list[0]
    } else {
        joined(list.drop_last(), separator) + separator + list.last()
    }
}

pub fn join(list: &Vec<String>, separator: &str) -> (out: Vec<char>)
    ensures
        out@ == joined(strings(list@), separator@),
{
    let mut out: Vec<char> = Vec::new();
    let ghost all = strings(list@);
    let mut k: usize = 0;
    assert(all.take(0) =~= Seq::<Seq<char>>::empty());
    while k < list.len()
        invariant
            k <= list@.len(),
            all == strings(list@),
            out@ == joined(all.take(k as int), separator@),
        decreases list@.len() - k,
    {
        if k > 0 {
            text::put(&mut out, separator);
        }
        text::put(&mut out, list[k].as_str());
        k = k + 1;
        proof {
            let here = all.take(k as int);
            assert(here.drop_last() =~= all.take(k - 1));
            assert(here.last() == list@[k - 1]@);
            if k == 1 {
                assert(out@ =~= here[0]);
            }
        }
    }
    assert(all.take(k as int) =~= all);
    out
}

} // verus!
