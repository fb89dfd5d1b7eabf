//! Folding a linear program along classes of rows and columns that no
//! coefficient tells apart.

use crate::arithmetic::Arithmetic;
use crate::batch::{self, RowUpdate};
use crate::bounds::{Bounds, RowDomain};
use crate::components;
use crate::eliminate;
use crate::grouping::{self, Key};
use crate::linked::{self, Entries, NONE};
use crate::listing;
use crate::model::Model;
use crate::number::{zero, Real};
use crate::objective::Objective;
use crate::order::{self, Keyed};
use crate::pivots::{capped_product, capped_sum};
use crate::schedule;
use crate::semidefinite;
use crate::settings::WorkLimit;
use crate::sparsify;
use vstd::multiset::Multiset;
use crate::lifting;
use crate::tape::{self, Rule};
use crate::passes::{self, Work};
use vstd::prelude::*;

verus! {

impl<
    P: Fn(Real, Real) -> Real,
    T: Fn(Real, Real) -> Real,
    D: Fn(Real, Real) -> Real,
    H: Fn(Real, Real) -> Real,
> Arithmetic<P, T, D, H> {
    /// What rounding took from the sum of two values.
    pub open spec fn lost(&self, x: Real, y: Real) -> Real {
        let s = self.sum(x, y);
        let b = self.difference(s, x);
        self.sum(self.difference(x, self.difference(s, b)), self.difference(y, b))
    }

    /// Carry a value through the parts of an expansion from place `k` on: what is
    /// left behind, and the carry.
    pub open spec fn swept_through(&self, parts: Seq<Real>, x: Real, left: Seq<Real>, k: int) -> Option<
        (Seq<Real>, Real),
    >
        decreases parts.len() - k,
    {
        if k >= parts.len() {
            Some((left, x))
        } else {
            let s = self.sum(x, parts[k]);
            let error = self.lost(x, parts[k]);
            if !s.finite() || !error.finite() {
                None
            } else {
                self.swept_through(
                    parts,
                    s,
                    if error.zero() {
                        left
                    } else {
                        left.push(error)
                    },
                    k + 1,
                )
            }
        }
    }

    /// An expansion that has taken up the values from place `k` on.
    pub open spec fn expanded(&self, values: Seq<Real>, parts: Seq<Real>, k: int) -> Option<
        Seq<Real>,
    >
        decreases values.len() - k,
    {
        if k >= values.len() {
            Some(parts)
        } else {
            match self.swept_through(parts, values[k], Seq::empty(), 0) {
                None => None,
                Some((left, x)) => self.expanded(
                    values,
                    if x.zero() {
                        left
                    } else {
                        left.push(x)
                    },
                    k + 1,
                ),
            }
        }
    }

    /// The parts of an expansion from place `k` on, added to a value in order.
    pub open spec fn parts_sum(&self, parts: Seq<Real>, total: Real, k: int) -> Real
        decreases parts.len() - k,
    {
        if k >= parts.len() {
            total
        } else {
            self.parts_sum(parts, self.sum(total, parts[k]), k + 1)
        }
    }

    /// The sum of the values with one rounding at the end; none where it leaves
    /// the finite numbers.
    pub open spec fn exact_sum(&self, values: Seq<Real>) -> Option<Real> {
        if values.len() == 0 {
            Some(zero())
        } else if values.len() == 1 {
            Some(values[0])
        } else {
            match self.expanded(values, seq![values[0]], 1) {
                None => None,
                Some(parts) => {
                    let total = self.parts_sum(parts, zero(), 0);
                    if total.finite() {
                        Some(total)
                    } else {
                        None
                    }
                },
            }
        }
    }

    /// Carry a value through an expansion.
    fn sweep_through(&self, parts: &Vec<Real>, start: Real) -> (r: Option<(Vec<Real>, Real)>)
        requires
            self.wf(),
        ensures
            match r {
                Some((left, x)) => self.swept_through(parts@, start, Seq::empty(), 0) == Some(
                    (left@, x),
                ),
                None => self.swept_through(parts@, start, Seq::empty(), 0) is None,
            },
    {
        let mut left: Vec<Real> = Vec::new();
        let mut x = start;
        let mut k: usize = 0;
        while k < parts.len()
            invariant
                self.wf(),
                k <= parts@.len(),
                self.swept_through(parts@, start, Seq::empty(), 0) == self.swept_through(
                    parts@,
                    x,
                    left@,
                    k as int,
                ),
            decreases parts@.len() - k,
        {
            let y = parts[k];
            let s = self.sum_of(x, y);
            let b = self.difference_of(s, x);
            let error = self.sum_of(
                self.difference_of(x, self.difference_of(s, b)),
                self.difference_of(y, b),
            );
            if !s.is_finite() || !error.is_finite() {
                return None;
            }
            if !error.is_zero() {
                left.push(error);
            }
            x = s;
            k = k + 1;
        }
        Some((left, x))
    }

    /// Add up the values in an expansion without error, then round its total.
    pub fn finite_sum(&self, values: &Vec<Real>) -> (r: Option<Real>)
        requires
            self.wf(),
        ensures
            r == self.exact_sum(values@),
    {
        if values.len() == 0 {
            return Some(zero());
        }
        if values.len() == 1 {
            return Some(values[0]);
        }
        let mut parts: Vec<Real> = Vec::new();
        parts.push(values[0]);
        let ghost first = parts@;
        proof {
            assert(first =~= seq![values@[0]]);
        }
        let mut k: usize = 1;
        while k < values.len()
            invariant
                self.wf(),
                1 <= k <= values@.len(),
                values@.len() >= 2,
                first == seq![values@[0]],
                self.expanded(values@, first, 1) == self.expanded(values@, parts@, k as int),
            decreases values@.len() - k,
        {
            match self.sweep_through(&parts, values[k]) {
                None => {
                    return None;
                },
                Some((left, x)) => {
                    parts = left;
                    if !x.is_zero() {
                        parts.push(x);
                    }
                },
            }
            k = k + 1;
        }
        let mut total = zero();
        let mut p: usize = 0;
        while p < parts.len()
            invariant
                self.wf(),
                p <= parts@.len(),
                self.parts_sum(parts@, zero(), 0) == self.parts_sum(parts@, total, p as int),
            decreases parts@.len() - p,
        {
            total = self.sum_of(total, parts[p]);
            p = p + 1;
        }
        if total.is_finite() {
            Some(total)
        } else {
            None
        }
    }
}

/// The place of the first item equal to item `i`.
pub open spec fn is_first<K>(keys: Seq<K>, i: int, j: int) -> bool {
    &&& 0 <= j <= i
    &&& keys[j] == keys[i]
    &&& forall|m: int| 0 <= m < j ==> #[trigger] keys[m] != keys[i]
}

pub open spec fn first_equal<K>(keys: Seq<K>, i: int) -> int {
    choose|j: int| is_first(keys, i, j)
}

/// The first equal item is where one is found with none before it.
pub proof fn first_is<K>(keys: Seq<K>, i: int, j: int)
    requires
        is_first(keys, i, j),
    ensures
        first_equal(keys, i) == j,
{
    let f = first_equal(keys, i);
    assert(is_first(keys, i, f));
    if f < j {
        assert(keys[f] != keys[i]);
    } else if j < f {
        assert(keys[j] != keys[i]);
    }
}

/// Every item has a first equal one.
pub proof fn first_exists<K>(keys: Seq<K>, i: int)
    requires
        0 <= i < keys.len(),
    ensures
        is_first(keys, i, first_equal(keys, i)),
{
    first_from(keys, i, 0);
}

proof fn first_from<K>(keys: Seq<K>, i: int, n: int)
    requires
        0 <= n <= i < keys.len(),
        forall|m: int| 0 <= m < n ==> #[trigger] keys[m] != keys[i],
    ensures
        is_first(keys, i, first_equal(keys, i)),
    decreases i - n,
{
    if keys[n] == keys[i] {
        assert(is_first(keys, i, n));
    } else {
        first_from(keys, i, n + 1);
    }
}

/// The number of classes that begin before item `n`.
pub open spec fn classes<K>(keys: Seq<Option<K>>, n: int) -> nat
    decreases n,
{
    if n <= 0 {
        0
    } else {
        classes(keys, n - 1) + if keys[n - 1] is Some && first_equal(keys, n - 1) == n - 1 {
            1nat
        } else {
            0
        }
    }
}

/// The color of an item: the number of its class in the order in which the
/// classes begin, or the largest number for an item without a key.
pub open spec fn color<K>(keys: Seq<Option<K>>, i: int) -> usize {
    if keys[i] is None {
        usize::MAX
    } else {
        classes(keys, first_equal(keys, i)) as usize
    }
}

/// The colors of all items.
pub open spec fn coloring<K>(keys: Seq<Option<K>>) -> Seq<usize> {
    Seq::new(keys.len(), |i: int| color(keys, i))
}

proof fn classes_fit<K>(keys: Seq<Option<K>>, n: int)
    requires
        0 <= n,
    ensures
        classes(keys, n) <= n,
    decreases n,
{
    if n > 0 {
        classes_fit(keys, n - 1);
    }
}

proof fn classes_grow<K>(keys: Seq<Option<K>>, m: int, n: int)
    requires
        0 <= m <= n,
    ensures
        classes(keys, m) <= classes(keys, n),
    decreases n - m,
{
    if m < n {
        classes_grow(keys, m, n - 1);
    }
}

/// Items share a color where they share a key, and only there.
pub proof fn colors_tell_keys_apart<K>(keys: Seq<Option<K>>, i: int, j: int)
    requires
        0 <= i < keys.len(),
        0 <= j < keys.len(),
        keys[i] is Some,
        keys[j] is Some,
        keys.len() < usize::MAX,
    ensures
        coloring(keys)[i] == coloring(keys)[j] <==> keys[i] == keys[j],
        coloring(keys)[i] < usize::MAX,
{
    first_exists(keys, i);
    first_exists(keys, j);
    let (f, g) = (first_equal(keys, i), first_equal(keys, j));
    classes_fit(keys, f);
    classes_fit(keys, g);
    if keys[i] == keys[j] {
        assert(is_first(keys, i, f) && is_first(keys, j, g));
        if f < g {
            assert(keys[f] != keys[j]);
        } else if g < f {
            assert(keys[g] != keys[i]);
        }
    } else {
        assert(is_first(keys, f, f));
        assert(is_first(keys, g, g));
        first_is(keys, f, f);
        first_is(keys, g, g);
        if f < g {
            classes_grow(keys, f + 1, g);
        } else if g < f {
            classes_grow(keys, g + 1, f);
        }
    }
}

/// Colorings depend only on which keys are equal.
proof fn colorings_agree<K, L>(left: Seq<Option<K>>, right: Seq<Option<L>>)
    requires
        left.len() == right.len(),
        forall|i: int| 0 <= i < left.len() ==> ((#[trigger] left[i]) is Some <==> right[i] is Some),
        forall|i: int, j: int|
            0 <= i < left.len() && 0 <= j < left.len() ==> (#[trigger] left[i] == #[trigger] left[j]
                <==> right[i] == right[j]),
    ensures
        coloring(left) == coloring(right),
{
    assert forall|i: int| 0 <= i < left.len() implies first_equal(left, i) == #[trigger] first_equal(
        right,
        i,
    ) && 0 <= first_equal(left, i) <= i by {
        first_exists(left, i);
        let f = first_equal(left, i);
        assert forall|m: int| 0 <= m < f implies #[trigger] right[m] != right[i] by {
            assert(left[m] != left[i]);
        }
        assert(left[f] == left[i]);
        assert(is_first(right, i, f));
        first_is(right, i, f);
    }
    assert forall|n: int| 0 <= n <= left.len() implies #[trigger] classes(left, n) == classes(
        right,
        n,
    ) by {
        classes_agree(left, right, n);
    }
    assert forall|i: int| 0 <= i < left.len() implies color(left, i) == color(right, i) by {
        assert(first_equal(left, i) == first_equal(right, i));
        assert(classes(left, first_equal(left, i)) == classes(right, first_equal(left, i)));
    }
    assert(coloring(left) =~= coloring(right));
}

proof fn classes_agree<K, L>(left: Seq<Option<K>>, right: Seq<Option<L>>, n: int)
    requires
        0 <= n <= left.len(),
        left.len() == right.len(),
        forall|i: int| 0 <= i < left.len() ==> ((#[trigger] left[i]) is Some <==> right[i] is Some),
        forall|i: int|
            0 <= i < left.len() ==> first_equal(left, i) == #[trigger] first_equal(right, i),
    ensures
        classes(left, n) == classes(right, n),
    decreases n,
{
    if n > 0 {
        classes_agree(left, right, n - 1);
        assert(first_equal(left, n - 1) == first_equal(right, n - 1));
        assert(left[n - 1] is Some <==> right[n - 1] is Some);
    }
}

/// The keys that lists of parts stand for.
pub open spec fn key_texts(keys: Seq<Option<Vec<Keyed>>>) -> Seq<Option<Seq<Keyed>>> {
    Seq::new(
        keys.len(),
        |i: int|
            match keys[i] {
                Some(parts) => Some(parts@),
                None => None,
            },
    )
}

/// The next value of a hash.
spec fn stirred(hash: u64, part: u128) -> u64 {
    ((hash as int * 0x1b3 + part as int % 0x1_0000_0000_0000_0000) % 0x1_0000_0000_0000_0000) as u64
}

fn stir(hash: u64, part: u128) -> (next: u64)
    ensures
        next == stirred(hash, part),
{
    ((hash as u128 * 0x1b3 + part % 0x1_0000_0000_0000_0000) % 0x1_0000_0000_0000_0000) as u64
}

/// The hash of the first `n` parts of a key.
spec fn hashed(key: Seq<Keyed>, n: int) -> u64
    decreases n,
{
    if n <= 0 {
        0
    } else {
        stirred(stirred(hashed(key, n - 1), key[n - 1].0), key[n - 1].1)
    }
}

fn hash_key(key: &Vec<Keyed>) -> (hash: u64)
    ensures
        hash == hashed(key@, key@.len() as int),
{
    let mut hash: u64 = 0;
    let mut k: usize = 0;
    while k < key.len()
        invariant
            k <= key@.len(),
            hash == hashed(key@, k as int),
        decreases key@.len() - k,
    {
        hash = stir(stir(hash, key[k].0), key[k].1);
        k = k + 1;
    }
    hash
}

fn same_key(left: &Vec<Keyed>, right: &Vec<Keyed>) -> (b: bool)
    ensures
        b == (left@ == right@),
{
    if left.len() != right.len() {
        return false;
    }
    let mut k: usize = 0;
    while k < left.len()
        invariant
            k <= left@.len(),
            left@.len() == right@.len(),
            forall|m: int| 0 <= m < k ==> left@[m] == right@[m],
        decreases left@.len() - k,
    {
        if left[k].0 != right[k].0 || left[k].1 != right[k].1 || left[k].2 != right[k].2 {
            assert(left@[k as int] != right@[k as int]);
            return false;
        }
        k = k + 1;
    }
    assert(left@ =~= right@);
    true
}

/// A short key for every key.
spec fn shortened(keys: Seq<Option<Seq<Keyed>>>) -> Seq<Option<Key>> {
    Seq::new(
        keys.len(),
        |i: int|
            match keys[i] {
                Some(parts) => Some((hashed(parts, parts.len() as int) as u128, 0u128)),
                None => None,
            },
    )
}

fn shorten(keys: &Vec<Option<Vec<Keyed>>>) -> (short: Vec<Option<Key>>)
    ensures
        short@ == shortened(key_texts(keys@)),
{
    let mut short: Vec<Option<Key>> = Vec::new();
    let mut i: usize = 0;
    while i < keys.len()
        invariant
            i <= keys@.len(),
            short@ =~= shortened(key_texts(keys@)).take(i as int),
        decreases keys@.len() - i,
    {
        match &keys[i] {
            Some(parts) => {
                short.push(Some((hash_key(parts) as u128, 0u128)));
            },
            None => {
                short.push(None);
            },
        }
        assert(short@ =~= shortened(key_texts(keys@)).take(i + 1));
        i = i + 1;
    }
    assert(short@ =~= shortened(key_texts(keys@)));
    short
}

/// Within a group the first equal member is the first equal item.
proof fn group_has_first(
    texts: Seq<Option<Seq<Keyed>>>,
    groups: Seq<Vec<usize>>,
    g: int,
    a: int,
    b: int,
)
    requires
        grouping::are_groups(groups, shortened(texts)),
        0 <= g < groups.len(),
        0 <= b <= a < groups[g]@.len(),
        texts.len() <= usize::MAX,
        texts[groups[g]@[b] as int] == texts[groups[g]@[a] as int],
        forall|c: int|
            0 <= c < b ==> texts[(#[trigger] groups[g]@[c]) as int] != texts[groups[g]@[a] as int],
    ensures
        is_first(texts, groups[g]@[a] as int, groups[g]@[b] as int),
{
    let group = groups[g]@;
    let short = shortened(texts);
    assert(grouping::is_group(group, short));
    let (i, j) = (group[a] as int, group[b] as int);
    assert(short[i] == short[group[0] as int]);
    assert forall|m: int| 0 <= m < j implies #[trigger] texts[m] != texts[i] by {
        if texts[m] == texts[i] {
            assert(short[m] == short[i]);
            assert(grouping::in_group(groups, m));
            let h = choose|h: int| 0 <= h < groups.len() && (#[trigger] groups[h])@.contains(m as usize);
            let c = choose|c: int| 0 <= c < groups[h]@.len() && groups[h]@[c] == m as usize;
            assert(grouping::is_group(groups[h]@, short));
            assert(short[groups[h]@[c] as int] == short[groups[h]@[0] as int]);
            if h < g {
                assert(grouping::key_before(
                    short[groups[h]@[0] as int]->Some_0,
                    short[groups[g]@[0] as int]->Some_0,
                ));
            } else if g < h {
                assert(grouping::key_before(
                    short[groups[g]@[0] as int]->Some_0,
                    short[groups[h]@[0] as int]->Some_0,
                ));
            }
            assert(h == g);
            if c >= b {
                if b < c {
                    assert(group[b] < group[c]);
                }
            }
            assert(c < b);
            assert(texts[group[c] as int] != texts[i]);
        }
    }
}

/// For every item the first one with its key.
fn first_items(keys: &Vec<Option<Vec<Keyed>>>) -> (firsts: Vec<usize>)
    ensures
        firsts@.len() == keys@.len(),
        forall|i: int|
            0 <= i < keys@.len() && keys@[i] is Some ==> is_first(
                key_texts(keys@),
                i,
                (#[trigger] firsts@[i]) as int,
            ),
{
    let ghost texts = key_texts(keys@);
    let total: usize = keys.len();
    let short = shorten(keys);
    let groups = grouping::candidate_groups(&short);
    let mut firsts: Vec<usize> = Vec::new();
    let mut i: usize = 0;
    while i < keys.len()
        invariant
            i <= keys@.len(),
            firsts@.len() == i,
            forall|m: int| 0 <= m < i ==> #[trigger] firsts@[m] == m,
        decreases keys@.len() - i,
    {
        firsts.push(i);
        i = i + 1;
    }
    let mut g: usize = 0;
    while g < groups.len()
        invariant
            g <= groups@.len(),
            texts == key_texts(keys@),
            keys@.len() == total,
            grouping::are_groups(groups@, shortened(texts)),
            firsts@.len() == keys@.len(),
            forall|m: int|
                0 <= m < keys@.len() ==> (#[trigger] firsts@[m]) == m || is_first(
                    texts,
                    m,
                    firsts@[m] as int,
                ),
            forall|h: int, a: int|
                0 <= h < g && 0 <= a < groups@[h]@.len() ==> is_first(
                    texts,
                    (#[trigger] groups@[h]@[a]) as int,
                    firsts@[groups@[h]@[a] as int] as int,
                ),
        decreases groups@.len() - g,
    {
        let group = &groups[g];
        assert(grouping::is_group(groups@[g as int]@, shortened(texts)));
        let mut a: usize = 0;
        while a < group.len()
            invariant
                g < groups@.len(),
                a <= group@.len(),
                group@ == groups@[g as int]@,
                texts == key_texts(keys@),
                keys@.len() == total,
                grouping::are_groups(groups@, shortened(texts)),
                grouping::is_group(group@, shortened(texts)),
                firsts@.len() == keys@.len(),
                forall|m: int|
                    0 <= m < keys@.len() ==> (#[trigger] firsts@[m]) == m || is_first(
                        texts,
                        m,
                        firsts@[m] as int,
                    ),
                forall|h: int, c: int|
                    0 <= h < g && 0 <= c < groups@[h]@.len() ==> is_first(
                        texts,
                        (#[trigger] groups@[h]@[c]) as int,
                        firsts@[groups@[h]@[c] as int] as int,
                    ),
                forall|c: int|
                    0 <= c < a ==> is_first(
                        texts,
                        (#[trigger] group@[c]) as int,
                        firsts@[group@[c] as int] as int,
                    ),
            decreases group@.len() - a,
        {
            let item: usize = group[a];
            assert(shortened(texts)[group@[a as int] as int] == shortened(
                texts,
            )[group@[0] as int]);
            let mut b: usize = 0;
            while b < a
                invariant
                    a < group@.len(),
                    b <= a,
                    item == group@[a as int],
                    texts == key_texts(keys@),
                    grouping::is_group(group@, shortened(texts)),
                    forall|c: int|
                        0 <= c < b ==> texts[(#[trigger] group@[c]) as int] != texts[item as int],
                ensures
                    b <= a,
                    texts[group@[b as int] as int] == texts[item as int],
                    forall|c: int|
                        0 <= c < b ==> texts[(#[trigger] group@[c]) as int] != texts[item as int],
                decreases a - b,
            {
                let other: usize = group[b];
                assert(shortened(texts)[group@[b as int] as int] == shortened(
                    texts,
                )[group@[0] as int]);
                assert(shortened(texts)[group@[a as int] as int] == shortened(
                    texts,
                )[group@[0] as int]);
                let equal = match (&keys[other], &keys[item]) {
                    (Some(left), Some(right)) => same_key(left, right),
                    _ => false,
                };
                if equal {
                    break;
                }
                b = b + 1;
            }
            proof {
                group_has_first(texts, groups@, g as int, a as int, b as int);
            }
            firsts.set(item, group[b]);
            a = a + 1;
        }
        g = g + 1;
    }
    proof {
        assert forall|i: int| 0 <= i < keys@.len() && keys@[i] is Some implies is_first(
            texts,
            i,
            (#[trigger] firsts@[i]) as int,
        ) by {
            if grouping::in_group(groups@, i) {
                let h = choose|h: int|
                    0 <= h < groups@.len() && (#[trigger] groups@[h])@.contains(i as usize);
                let c = choose|c: int| 0 <= c < groups@[h]@.len() && groups@[h]@[c] == i as usize;
                assert(is_first(
                    texts,
                    groups@[h]@[c] as int,
                    firsts@[groups@[h]@[c] as int] as int,
                ));
            } else if !is_first(texts, i, firsts@[i] as int) {
                assert(firsts@[i] == i);
                assert forall|m: int| 0 <= m < i implies #[trigger] texts[m] != texts[i] by {
                    if texts[m] == texts[i] {
                        assert(shortened(texts)[m] == shortened(texts)[i]);
                    }
                }
            }
        }
    }
    firsts
}

/// Color items by their keys.
pub fn partition(keys: &Vec<Option<Vec<Keyed>>>) -> (colors: Vec<usize>)
    ensures
        colors@ == coloring(key_texts(keys@)),
{
    let ghost texts = key_texts(keys@);
    let firsts = first_items(keys);
    let mut colors: Vec<usize> = Vec::new();
    let mut next: usize = 0;
    let mut i: usize = 0;
    while i < keys.len()
        invariant
            i <= keys@.len(),
            next <= i,
            texts == key_texts(keys@),
            next == classes(texts, i as int),
            colors@.len() == i,
            firsts@.len() == keys@.len(),
            forall|m: int|
                0 <= m < keys@.len() && keys@[m] is Some ==> is_first(
                    texts,
                    m,
                    (#[trigger] firsts@[m]) as int,
                ),
            forall|m: int| 0 <= m < i ==> #[trigger] colors@[m] == color(texts, m),
        decreases keys@.len() - i,
    {
        if keys[i].is_none() {
            colors.push(usize::MAX);
        } else {
            let first: usize = firsts[i];
            proof {
                assert(is_first(texts, i as int, firsts@[i as int] as int));
                first_is(texts, i as int, first as int);
            }
            if first == i {
                colors.push(next);
                next = next + 1;
            } else {
                proof {
                    assert(texts[first as int] == texts[i as int]);
                    assert(is_first(texts, first as int, first as int));
                    first_is(texts, first as int, first as int);
                }
                let color: usize = colors[first];
                colors.push(color);
            }
        }
        i = i + 1;
    }
    assert(colors@ =~= coloring(texts));
    colors
}

/// The bits of a value, the same for both zeros.
pub open spec fn value_bits(v: Real) -> u64 {
    if v.zero() {
        0
    } else {
        v.bits
    }
}

fn bits_of(v: Real) -> (bits: u64)
    ensures
        bits == value_bits(v),
{
    if v.is_zero() {
        0
    } else {
        v.to_bits()
    }
}

/// What an entry shows of a line: the color of the crossing line and the value.
pub open spec fn entry_part(entry: (usize, Real), opposite: Seq<usize>) -> Keyed {
    (opposite[entry.0 as int] as u128, value_bits(entry.1) as u128, 0usize)
}

/// The entries of a line as its color and the colors of the other axis show them.
pub open spec fn bag(entries: Seq<(usize, Real)>, opposite: Seq<usize>) -> Multiset<Keyed> {
    Seq::new(entries.len(), |k: int| entry_part(entries[k], opposite)).to_multiset()
}

/// What tells colored lines apart: their colors and their bags.
pub open spec fn line_keys(
    a: Map<(int, int), Real>,
    axis: bool,
    own: Seq<usize>,
    opposite: Seq<usize>,
) -> Seq<Option<(usize, Multiset<Keyed>)>> {
    Seq::new(
        own.len(),
        |i: int|
            if own[i] == usize::MAX {
                None
            } else {
                Some((own[i], bag(listing::line(a, axis, i), opposite)))
            },
    )
}

/// A key that lists a color and then a bag in order.
spec fn lists_bag(text: Seq<Keyed>, own: usize, items: Multiset<Keyed>) -> bool {
    &&& text.len() > 0
    &&& text[0] == (own as u128, 0u128, 0usize)
    &&& order::keyed_ascend(text.skip(1))
    &&& text.skip(1).to_multiset() == items
}

proof fn bags_are_listed_once(
    left: Seq<Keyed>,
    right: Seq<Keyed>,
    own: (usize, usize),
    items: (Multiset<Keyed>, Multiset<Keyed>),
)
    requires
        lists_bag(left, own.0, items.0),
        lists_bag(right, own.1, items.1),
    ensures
        left == right <==> own.0 == own.1 && items.0 == items.1,
{
    if own.0 == own.1 && items.0 == items.1 {
        let leq = |a: Keyed, b: Keyed| order::keyed_before(a, b);
        assert(vstd::relations::total_ordering(leq));
        assert(vstd::relations::sorted_by(left.skip(1), leq));
        assert(vstd::relations::sorted_by(right.skip(1), leq));
        vstd::seq_lib::lemma_sorted_unique(left.skip(1), right.skip(1), leq);
        assert(left =~= seq![left[0]] + left.skip(1));
        assert(right =~= seq![right[0]] + right.skip(1));
    }
}

/// The key of a line.
fn line_key(own: usize, entries: &Entries, opposite: &Vec<usize>) -> (text: Vec<Keyed>)
    requires
        forall|k: int| 0 <= k < entries@.len() ==> (#[trigger] entries@[k]).0 < opposite@.len(),
    ensures
        lists_bag(text@, own, bag(entries@, opposite@)),
{
    let mut parts: Vec<Keyed> = Vec::new();
    let mut k: usize = 0;
    while k < entries.len()
        invariant
            k <= entries@.len(),
            forall|m: int| 0 <= m < entries@.len() ==> (#[trigger] entries@[m]).0 < opposite@.len(),
            parts@.len() == k,
            forall|m: int| 0 <= m < k ==> #[trigger] parts@[m] == entry_part(entries@[m], opposite@),
        decreases entries@.len() - k,
    {
        assert(entries@[k as int].0 < opposite@.len());
        let (j, a): (usize, Real) = entries[k];
        parts.push((opposite[j] as u128, bits_of(a) as u128, 0usize));
        k = k + 1;
    }
    assert(parts@ =~= Seq::new(entries@.len(), |m: int| entry_part(entries@[m], opposite@)));
    order::sort_keyed(&mut parts);
    let ghost sorted = parts@;
    let mut text: Vec<Keyed> = Vec::new();
    text.push((own as u128, 0u128, 0usize));
    text.append(&mut parts);
    assert(text@.skip(1) =~= sorted);
    text
}

/// The largest exponent of two that does not exceed a number.
pub open spec fn log2(n: nat) -> nat
    decreases n,
{
    if n <= 1 {
        0
    } else {
        1 + log2(n / 2)
    }
}

fn exponent(n: usize) -> (r: usize)
    ensures
        r == log2(n as nat),
        r <= n,
{
    let mut left = n;
    let mut r: usize = 0;
    while left > 1
        invariant
            r + log2(left as nat) == log2(n as nat),
            r + left <= n || left <= 1 && r <= n,
        decreases left,
    {
        left = left / 2;
        r = r + 1;
    }
    r
}

/// The work of sorting the entries of a line.
pub open spec fn sorting_cost(length: nat) -> int {
    sparsify::capped(
        sparsify::capped(length * sparsify::capped((log2(length) + 1) as int)) + 1,
    )
}

fn cost_of_sorting(length: usize) -> (cost: usize)
    ensures
        cost == sorting_cost(length as nat),
{
    capped_sum(capped_product(length, capped_sum(exponent(length), 1)), 1)
}

/// The work left once the colored lines from `i` on are sorted.
pub open spec fn sorting_left(
    a: Map<(int, int), Real>,
    axis: bool,
    own: Seq<usize>,
    work: usize,
    i: int,
) -> Option<usize>
    decreases own.len() - i,
{
    if i >= own.len() {
        Some(work)
    } else if own[i] == usize::MAX {
        sorting_left(a, axis, own, work, i + 1)
    } else {
        let cost = sorting_cost(listing::line(a, axis, i).len());
        if cost > work {
            None
        } else {
            sorting_left(a, axis, own, (work - cost) as usize, i + 1)
        }
    }
}

impl Model {
    /// Split the colors of the rows, or of the columns, by what their entries
    /// show. Nothing where the work or the time does not suffice.
    pub fn fold_refine<E: Fn() -> bool>(
        &self,
        row: bool,
        own: &Vec<usize>,
        opposite: &Vec<usize>,
        work: usize,
        expired: &E,
    ) -> (r: Option<(Vec<usize>, usize)>)
        requires
            self.wf(),
            own@.len() == (if row {
                self.rows@.len()
            } else {
                self.bounds@.len()
            }),
            opposite@.len() == (if row {
                self.bounds@.len()
            } else {
                self.rows@.len()
            }),
            call_requires(*expired, ()),
        ensures
            match r {
                Some((colors, left)) => {
                    &&& sorting_left(self.a@, !row, own@, work, 0) == Some(left)
                    &&& colors@ == coloring(line_keys(self.a@, !row, own@, opposite@))
                },
                None => sorting_left(self.a@, !row, own@, work, 0) is None || call_ensures(
                    *expired,
                    (),
                    true,
                ),
            },
    {
        let mut keys: Vec<Option<Vec<Keyed>>> = Vec::new();
        let mut left: usize = work;
        let ghost wanted = line_keys(self.a@, !row, own@, opposite@);
        let mut i: usize = 0;
        while i < own.len()
            invariant
                self.wf(),
                i <= own@.len(),
                own@.len() == (if row {
                    self.rows@.len()
                } else {
                    self.bounds@.len()
                }),
                opposite@.len() == (if row {
                    self.bounds@.len()
                } else {
                    self.rows@.len()
                }),
                call_requires(*expired, ()),
                wanted == line_keys(self.a@, !row, own@, opposite@),
                keys@.len() == i,
                forall|m: int|
                    0 <= m < i ==> match #[trigger] keys@[m] {
                        Some(text) => wanted[m] is Some && lists_bag(
                            text@,
                            wanted[m]->Some_0.0,
                            wanted[m]->Some_0.1,
                        ),
                        None => wanted[m] is None,
                    },
                sorting_left(self.a@, !row, own@, work, 0) == sorting_left(
                    self.a@,
                    !row,
                    own@,
                    left,
                    i as int,
                ),
            decreases own@.len() - i,
        {
            if i % 256 == 0 && expired() {
                return None;
            }
            if own[i] == usize::MAX {
                keys.push(None);
            } else {
                let entries = if row {
                    self.row_entries(i)
                } else {
                    self.column_entries(i)
                };
                assert(entries@ == listing::line(self.a@, !row, i as int));
                let cost: usize = cost_of_sorting(entries.len());
                if cost > left {
                    return None;
                }
                left = left - cost;
                keys.push(Some(line_key(own[i], &entries, opposite)));
            }
            i = i + 1;
        }
        proof {
            let texts = key_texts(keys@);
            assert forall|m: int| 0 <= m < texts.len() implies ((#[trigger] texts[m]) is Some
                <==> wanted[m] is Some) by {
                assert(keys@[m] is Some <==> wanted[m] is Some);
            }
            assert forall|m: int, n: int| 0 <= m < texts.len() && 0 <= n < texts.len() implies (
            #[trigger] texts[m] == #[trigger] texts[n] <==> wanted[m] == wanted[n]) by {
                assert(keys@[m] is Some <==> wanted[m] is Some);
                assert(keys@[n] is Some <==> wanted[n] is Some);
                if wanted[m] is Some && wanted[n] is Some {
                    let (x, y) = (wanted[m]->Some_0, wanted[n]->Some_0);
                    bags_are_listed_once(
                        texts[m]->Some_0,
                        texts[n]->Some_0,
                        (x.0, y.0),
                        (x.1, y.1),
                    );
                }
            }
            colorings_agree(texts, wanted);
        }
        Some((partition(&keys), left))
    }
}

/// Linear rows are first told apart by their bounds.
pub open spec fn row_texts(rows: Seq<RowDomain>) -> Seq<Option<Seq<Keyed>>> {
    Seq::new(
        rows.len(),
        |i: int|
            match rows[i] {
                RowDomain::Linear(b) => Some(
                    seq![(value_bits(b.lower) as u128, value_bits(b.upper) as u128, 0usize)],
                ),
                _ => None,
            },
    )
}

/// Variables are first told apart by their costs and bounds.
pub open spec fn column_texts(c: Seq<Real>, bounds: Seq<Bounds>, alive: Seq<bool>) -> Seq<
    Option<Seq<Keyed>>,
> {
    Seq::new(
        bounds.len(),
        |j: int|
            if alive[j] {
                Some(
                    seq![
                        (value_bits(c[j]) as u128, value_bits(bounds[j].lower) as u128, 0usize),
                        (value_bits(bounds[j].upper) as u128, 0u128, 0usize),
                    ],
                )
            } else {
                None
            },
    )
}

fn color_rows(rows: &Vec<RowDomain>) -> (colors: Vec<usize>)
    ensures
        colors@ == coloring(row_texts(rows@)),
{
    let mut keys: Vec<Option<Vec<Keyed>>> = Vec::new();
    let mut i: usize = 0;
    while i < rows.len()
        invariant
            i <= rows@.len(),
            key_texts(keys@) =~= row_texts(rows@).take(i as int),
        decreases rows@.len() - i,
    {
        let ghost before = keys@;
        match rows[i] {
            RowDomain::Linear(b) => {
                let mut text: Vec<Keyed> = Vec::new();
                text.push((bits_of(b.lower) as u128, bits_of(b.upper) as u128, 0usize));
                assert(text@ =~= seq![
                    (value_bits(b.lower) as u128, value_bits(b.upper) as u128, 0usize),
                ]);
                keys.push(Some(text));
            },
            _ => {
                keys.push(None);
            },
        }
        proof {
            assert(key_texts(keys@) =~= key_texts(before).push(row_texts(rows@)[i as int]));
        }
        i = i + 1;
    }
    assert(key_texts(keys@) =~= row_texts(rows@));
    partition(&keys)
}

fn color_columns(c: &Vec<Real>, bounds: &Vec<Bounds>, alive: &Vec<bool>) -> (colors: Vec<usize>)
    requires
        c@.len() == bounds@.len(),
        alive@.len() == bounds@.len(),
    ensures
        colors@ == coloring(column_texts(c@, bounds@, alive@)),
{
    let mut keys: Vec<Option<Vec<Keyed>>> = Vec::new();
    let mut j: usize = 0;
    while j < bounds.len()
        invariant
            j <= bounds@.len(),
            c@.len() == bounds@.len(),
            alive@.len() == bounds@.len(),
            key_texts(keys@) =~= column_texts(c@, bounds@, alive@).take(j as int),
        decreases bounds@.len() - j,
    {
        let ghost before = keys@;
        let ghost wanted = column_texts(c@, bounds@, alive@)[j as int];
        if alive[j] {
            let b = bounds[j];
            let mut text: Vec<Keyed> = Vec::new();
            text.push((bits_of(c[j]) as u128, bits_of(b.lower) as u128, 0usize));
            text.push((bits_of(b.upper) as u128, 0u128, 0usize));
            assert(text@ =~= wanted->Some_0);
            keys.push(Some(text));
        } else {
            keys.push(None);
        }
        proof {
            assert(key_texts(keys@) =~= key_texts(before).push(wanted));
        }
        j = j + 1;
    }
    assert(key_texts(keys@) =~= column_texts(c@, bounds@, alive@));
    partition(&keys)
}

/// The colors of rows and columns, split by each other for so many rounds or
/// until nothing splits, with the work that is left. Nothing where the rounds or
/// the work run out first.
pub open spec fn settled(
    a: Map<(int, int), Real>,
    rows: Seq<usize>,
    columns: Seq<usize>,
    work: usize,
    rounds: nat,
) -> Option<(Seq<usize>, Seq<usize>, usize)>
    decreases rounds,
{
    if rounds == 0 {
        None
    } else {
        match sorting_left(a, false, rows, work, 0) {
            None => None,
            Some(left) => {
                let r = coloring(line_keys(a, false, rows, columns));
                match sorting_left(a, true, columns, left, 0) {
                    None => None,
                    Some(rest) => {
                        let c = coloring(line_keys(a, true, columns, r));
                        if r == rows && c == columns {
                            Some((r, c, rest))
                        } else {
                            settled(a, r, c, rest, (rounds - 1) as nat)
                        }
                    },
                }
            },
        }
    }
}

/// Once the colors have settled, rows of one color hold the same coefficients
/// equally often in every class of columns, and columns of one color in every
/// class of rows.
pub proof fn settled_classes_look_alike(
    a: Map<(int, int), Real>,
    rows: Seq<usize>,
    columns: Seq<usize>,
    work: usize,
    rounds: nat,
    row: bool,
    i: int,
    j: int,
)
    requires
        rows.len() < usize::MAX,
        columns.len() < usize::MAX,
        settled(a, rows, columns, work, rounds) is Some,
        ({
            let (r, c, _) = settled(a, rows, columns, work, rounds)->Some_0;
            let own = if row {
                r
            } else {
                c
            };
            0 <= i < own.len() && 0 <= j < own.len() && own[i] == own[j] && own[i] != usize::MAX
        }),
    ensures
        ({
            let (r, c, _) = settled(a, rows, columns, work, rounds)->Some_0;
            let opposite = if row {
                c
            } else {
                r
            };
            bag(listing::line(a, !row, i), opposite) == bag(listing::line(a, !row, j), opposite)
        }),
    decreases rounds,
{
    let left = sorting_left(a, false, rows, work, 0)->Some_0;
    let r = coloring(line_keys(a, false, rows, columns));
    let rest = sorting_left(a, true, columns, left, 0)->Some_0;
    let c = coloring(line_keys(a, true, columns, r));
    if r == rows && c == columns {
        let keys = if row {
            line_keys(a, false, rows, columns)
        } else {
            line_keys(a, true, columns, r)
        };
        colors_tell_keys_apart(keys, i, j);
        assert(keys[i] == keys[j]);
    } else {
        settled_classes_look_alike(a, r, c, rest, (rounds - 1) as nat, row, i, j);
    }
}

fn same_list(left: &Vec<usize>, right: &Vec<usize>) -> (b: bool)
    ensures
        b == (left@ == right@),
{
    if left.len() != right.len() {
        return false;
    }
    let mut k: usize = 0;
    while k < left.len()
        invariant
            k <= left@.len(),
            left@.len() == right@.len(),
            forall|m: int| 0 <= m < k ==> left@[m] == right@[m],
        decreases left@.len() - k,
    {
        if left[k] != right[k] {
            assert(left@[k as int] != right@[k as int]);
            return false;
        }
        k = k + 1;
    }
    assert(left@ =~= right@);
    true
}

impl Model {
    /// Split the colors of rows and columns until they settle.
    pub fn settle<E: Fn() -> bool>(
        &self,
        rows: Vec<usize>,
        columns: Vec<usize>,
        work: usize,
        rounds: usize,
        expired: &E,
    ) -> (r: Option<(Vec<usize>, Vec<usize>, usize)>)
        requires
            self.wf(),
            rows@.len() == self.rows@.len(),
            columns@.len() == self.bounds@.len(),
            call_requires(*expired, ()),
        ensures
            match r {
                Some((i, j, left)) => settled(self.a@, rows@, columns@, work, rounds as nat)
                    == Some((i@, j@, left)) && i@.len() == rows@.len() && j@.len()
                    == columns@.len(),
                None => settled(self.a@, rows@, columns@, work, rounds as nat) is None
                    || call_ensures(*expired, (), true),
            },
    {
        let ghost goal = settled(self.a@, rows@, columns@, work, rounds as nat);
        let ghost first = (rows@, columns@);
        let (mut own, mut other): (Vec<usize>, Vec<usize>) = (rows, columns);
        let mut left: usize = work;
        let mut k: usize = 0;
        while k < rounds
            invariant
                self.wf(),
                k <= rounds,
                own@.len() == self.rows@.len(),
                other@.len() == self.bounds@.len(),
                first.0.len() == self.rows@.len(),
                first.1.len() == self.bounds@.len(),
                first == (rows@, columns@),
                call_requires(*expired, ()),
                goal == settled(self.a@, first.0, first.1, work, rounds as nat),
                goal == settled(self.a@, own@, other@, left, (rounds - k) as nat),
            decreases rounds - k,
        {
            let (r, after): (Vec<usize>, usize) = match self.fold_refine(
                true,
                &own,
                &other,
                left,
                expired,
            ) {
                None => {
                    return None;
                },
                Some(pair) => pair,
            };
            let (c, rest): (Vec<usize>, usize) = match self.fold_refine(
                false,
                &other,
                &r,
                after,
                expired,
            ) {
                None => {
                    return None;
                },
                Some(pair) => pair,
            };
            if same_list(&r, &own) && same_list(&c, &other) {
                return Some((r, c, rest));
            }
            own = r;
            other = c;
            left = rest;
            k = k + 1;
        }
        None
    }
}

/// The first item of the color of item `j`.
pub open spec fn lead(colors: Seq<usize>, j: int) -> usize {
    components::members(colors, colors[j], colors.len())[0]
}

proof fn lead_leads(colors: Seq<usize>, j: int)
    requires
        0 <= j < colors.len() <= usize::MAX,
    ensures
        lead(colors, j) < colors.len(),
        colors[lead(colors, j) as int] == colors[j],
        lead(colors, lead(colors, j) as int) == lead(colors, j),
{
    components::members_are_exact(colors, colors[j], colors.len());
    let class = components::members(colors, colors[j], colors.len());
    assert(class.contains(j as usize));
    assert(class[0] < colors.len() && colors[class[0] as int] == colors[j]);
}

/// A class is all items with its label.
proof fn class_is_complete(labels: Seq<usize>, bound: nat, g: int)
    requires
        labels.len() <= usize::MAX,
        bound <= usize::MAX,
        0 <= g < components::classes(labels, bound).len(),
    ensures
        ({
            let class = components::classes(labels, bound)[g];
            class == components::members(labels, labels[class[0] as int], labels.len())
        }),
    decreases bound,
{
    let less = (bound - 1) as nat;
    let before = components::classes(labels, less);
    let last = components::members(labels, less as usize, labels.len());
    if last.len() > 0 && g == before.len() {
        components::members_are_exact(labels, less as usize, labels.len());
        assert(last[0] < labels.len() && labels[last[0] as int] == less);
    } else {
        class_is_complete(labels, less, g);
    }
}

/// For every colored item the first one of its color.
fn lead_items(colors: &Vec<usize>, groups: &Vec<Vec<usize>>) -> (leads: Vec<usize>)
    requires
        semidefinite::views(groups@) == components::classes(colors@, colors@.len()),
    ensures
        leads@.len() == colors@.len(),
        forall|j: int|
            0 <= j < colors@.len() && colors@[j] < colors@.len() ==> #[trigger] leads@[j] == lead(
                colors@,
                j,
            ),
{
    let n: usize = colors.len();
    let ghost all = components::classes(colors@, colors@.len());
    let mut leads: Vec<usize> = Vec::new();
    while leads.len() < n
        invariant
            leads@.len() <= n,
        decreases n - leads@.len(),
    {
        leads.push(0);
    }
    proof {
        semidefinite::classes_are_exact(colors@, n as nat);
    }
    let mut g: usize = 0;
    while g < groups.len()
        invariant
            g <= groups@.len(),
            n == colors@.len(),
            leads@.len() == n,
            all == components::classes(colors@, n as nat),
            semidefinite::views(groups@) == all,
            semidefinite::classes_of(all, colors@),
            forall|h: int, a: int|
                0 <= h < g && 0 <= a < all[h].len() ==> leads@[(#[trigger] all[h][a]) as int]
                    == lead(colors@, all[h][a] as int),
        decreases groups@.len() - g,
    {
        let group = &groups[g];
        assert(group@ == all[g as int]);
        assert(all[g as int].len() > 0);
        proof {
            class_is_complete(colors@, n as nat, g as int);
        }
        let mut a: usize = 0;
        while a < group.len()
            invariant
                g < groups@.len(),
                a <= group@.len(),
                group@ == all[g as int],
                group@.len() > 0,
                group@ == components::members(
                    colors@,
                    colors@[group@[0] as int],
                    colors@.len(),
                ),
                n == colors@.len(),
                leads@.len() == n,
                all == components::classes(colors@, n as nat),
                all.len() == groups@.len(),
                semidefinite::classes_of(all, colors@),
                forall|h: int, b: int|
                    0 <= h < g && 0 <= b < all[h].len() ==> leads@[(#[trigger] all[h][b]) as int]
                        == lead(colors@, all[h][b] as int),
                forall|b: int|
                    0 <= b < a ==> leads@[(#[trigger] all[g as int][b]) as int] == lead(
                        colors@,
                        all[g as int][b] as int,
                    ),
            decreases group@.len() - a,
        {
            assert(all[g as int][a as int] < n);
            leads.set(group[a], group[0]);
            a = a + 1;
        }
        g = g + 1;
    }
    proof {
        assert forall|j: int|
            0 <= j < colors@.len() && colors@[j] < colors@.len() implies #[trigger] leads@[j]
            == lead(colors@, j) by {
            let h = choose|h: int| 0 <= h < all.len() && (#[trigger] all[h]).contains(j as usize);
            let a = choose|a: int| 0 <= a < all[h].len() && all[h][a] == j as usize;
            assert(leads@[all[h][a] as int] == lead(colors@, all[h][a] as int));
        }
    }
    leads
}

/// The values among the first `n` entries whose lines have this color.
pub open spec fn picked(
    entries: Seq<(usize, Real)>,
    colors: Seq<usize>,
    color: usize,
    n: int,
) -> Seq<Real>
    decreases n,
{
    if n <= 0 {
        Seq::empty()
    } else if colors[entries[n - 1].0 as int] == color {
        picked(entries, colors, color, n - 1).push(entries[n - 1].1)
    } else {
        picked(entries, colors, color, n - 1)
    }
}

proof fn picked_from(entries: Seq<(usize, Real)>, colors: Seq<usize>, color: usize, n: int) -> (
    m: int)
    requires
        0 <= n <= entries.len(),
        picked(entries, colors, color, n).len() > 0,
    ensures
        0 <= m < n,
        colors[entries[m].0 as int] == color,
    decreases n,
{
    if colors[entries[n - 1].0 as int] == color {
        n - 1
    } else {
        picked_from(entries, colors, color, n - 1)
    }
}

impl<
    P: Fn(Real, Real) -> Real,
    T: Fn(Real, Real) -> Real,
    D: Fn(Real, Real) -> Real,
    H: Fn(Real, Real) -> Real,
> Arithmetic<P, T, D, H> {
    /// The sum of the coefficients of a row in one class of columns.
    pub open spec fn class_sum(
        &self,
        entries: Seq<(usize, Real)>,
        colors: Seq<usize>,
        color: usize,
    ) -> Option<Real> {
        self.exact_sum(picked(entries, colors, color, entries.len() as int))
    }

    /// Every entry lies in a class, and every class has a finite sum.
    pub open spec fn condensable(&self, entries: Seq<(usize, Real)>, colors: Seq<usize>) -> bool {
        forall|m: int|
            0 <= m < entries.len() ==> colors[(#[trigger] entries[m]).0 as int] < colors.len()
                && self.class_sum(entries, colors, colors[entries[m].0 as int]) is Some
    }

    /// A row with every class of columns replaced by its first column, under the
    /// sum of the coefficients.
    pub open spec fn condenses(
        &self,
        merged: Seq<(usize, Real)>,
        entries: Seq<(usize, Real)>,
        colors: Seq<usize>,
    ) -> bool {
        &&& linked::sorted_entries(merged, colors.len())
        &&& self.condensable(entries, colors)
        &&& forall|k: int|
            0 <= k < merged.len() ==> {
                let (l, v) = #[trigger] merged[k];
                &&& lead(colors, l as int) == l
                &&& self.class_sum(entries, colors, colors[l as int]) == Some(v)
                &&& picked(entries, colors, colors[l as int], entries.len() as int).len() > 0
            }
        &&& forall|m: int|
            0 <= m < entries.len() ==> {
                let color = colors[(#[trigger] entries[m]).0 as int];
                self.class_sum(entries, colors, color)->Some_0.zero() || exists|k: int|
                    0 <= k < merged.len() && (#[trigger] merged[k]).0 == lead(
                        colors,
                        entries[m].0 as int,
                    )
            }
    }

    /// Merge the entries of a row by the colors of their columns. The slots are
    /// empty before and after.
    fn condense_row(
        &self,
        entries: &Entries,
        colors: &Vec<usize>,
        leads: &Vec<usize>,
        slots: &mut Vec<Vec<Real>>,
    ) -> (r: Option<Entries>)
        requires
            self.wf(),
            forall|m: int|
                0 <= m < entries@.len() ==> (#[trigger] entries@[m]).0 < colors@.len(),
            leads@.len() == colors@.len(),
            forall|j: int|
                0 <= j < colors@.len() && colors@[j] < colors@.len() ==> #[trigger] leads@[j]
                    == lead(colors@, j),
            old(slots)@.len() == colors@.len(),
            forall|x: int| 0 <= x < old(slots)@.len() ==> (#[trigger] old(slots)@[x])@.len() == 0,
        ensures
            match r {
                Some(merged) => {
                    &&& self.condenses(merged@, entries@, colors@)
                    &&& final(slots)@.len() == colors@.len()
                    &&& forall|x: int|
                        0 <= x < final(slots)@.len() ==> (#[trigger] final(slots)@[x])@.len() == 0
                },
                None => !self.condensable(entries@, colors@),
            },
    {
        let n: usize = colors.len();
        let ghost full = entries@.len() as int;
        let mut list: Vec<usize> = Vec::new();
        let mut k: usize = 0;
        while k < entries.len()
            invariant
                k <= entries@.len(),
                n == colors@.len(),
                forall|m: int|
                    0 <= m < entries@.len() ==> (#[trigger] entries@[m]).0 < colors@.len(),
                leads@.len() == n,
                forall|j: int|
                    0 <= j < n && colors@[j] < n ==> #[trigger] leads@[j] == lead(colors@, j),
                slots@.len() == n,
                forall|x: int|
                    0 <= x < n ==> (#[trigger] slots@[x])@ == (if colors@[x] < n && lead(
                        colors@,
                        x,
                    ) == x {
                        picked(entries@, colors@, colors@[x], k as int)
                    } else {
                        Seq::empty()
                    }),
                list@.len() == k,
                forall|m: int|
                    0 <= m < k ==> #[trigger] list@[m] == lead(colors@, entries@[m].0 as int)
                        && colors@[entries@[m].0 as int] < n,
            decreases entries@.len() - k,
        {
            assert(entries@[k as int].0 < n);
            let (j, v): (usize, Real) = entries[k];
            if colors[j] >= n {
                return None;
            }
            let l: usize = leads[j];
            let ghost before = slots@;
            proof {
                lead_leads(colors@, j as int);
            }
            let mut slot: Vec<Real> = Vec::new();
            std::mem::swap(&mut slot, &mut slots[l]);
            slot.push(v);
            slots.set(l, slot);
            proof {
                assert forall|x: int| 0 <= x < n implies (#[trigger] slots@[x])@ == (if colors@[x]
                    < n && lead(colors@, x) == x {
                    picked(entries@, colors@, colors@[x], k + 1)
                } else {
                    Seq::empty()
                }) by {
                    assert(before[x]@ == (if colors@[x] < n && lead(colors@, x) == x {
                        picked(entries@, colors@, colors@[x], k as int)
                    } else {
                        Seq::empty()
                    }));
                    if x != l && colors@[x] == colors@[j as int] {
                        assert(lead(colors@, x) == lead(colors@, j as int));
                    }
                }
            }
            list.push(l);
            k = k + 1;
        }
        let ghost all = list@;
        let distinct = order::sorted_distinct(list);
        let mut merged: Entries = Vec::new();
        let mut p: usize = 0;
        while p < distinct.len()
            invariant
                self.wf(),
                p <= distinct@.len(),
                n == colors@.len(),
                full == entries@.len(),
                all.len() == full,
                forall|m: int|
                    0 <= m < entries@.len() ==> (#[trigger] entries@[m]).0 < colors@.len(),
                forall|m: int|
                    0 <= m < full ==> #[trigger] all[m] == lead(colors@, entries@[m].0 as int)
                        && colors@[entries@[m].0 as int] < n,
                order::strictly_ascending(distinct@),
                forall|x: usize| distinct@.contains(x) <==> all.contains(x),
                slots@.len() == n,
                forall|x: int|
                    0 <= x < n ==> (#[trigger] slots@[x])@ == (if colors@[x] < n && lead(
                        colors@,
                        x,
                    ) == x && !distinct@.take(p as int).contains(x as usize) {
                        picked(entries@, colors@, colors@[x], full)
                    } else {
                        Seq::empty()
                    }),
                linked::sorted_entries(merged@, n as nat),
                merged@.len() > 0 ==> p > 0 && merged@.last().0 <= distinct@[p - 1],
                forall|q: int|
                    0 <= q < p ==> self.class_sum(
                        entries@,
                        colors@,
                        colors@[(#[trigger] distinct@[q]) as int],
                    ) is Some,
                forall|q: int|
                    0 <= q < p ==> {
                        let l = #[trigger] distinct@[q];
                        self.class_sum(entries@, colors@, colors@[l as int])->Some_0.zero()
                            || exists|k: int| 0 <= k < merged@.len() && (#[trigger] merged@[k]).0 == l
                    },
                forall|k: int|
                    0 <= k < merged@.len() ==> {
                        let (l, v) = #[trigger] merged@[k];
                        &&& lead(colors@, l as int) == l
                        &&& self.class_sum(entries@, colors@, colors@[l as int]) == Some(v)
                        &&& picked(entries@, colors@, colors@[l as int], full).len() > 0
                    },
            decreases distinct@.len() - p,
        {
            let l: usize = distinct[p];
            let ghost mut m = 0int;
            proof {
                assert(distinct@[p as int] == l);
                assert(distinct@.contains(l));
                assert(all.contains(l));
                m = choose|m: int| 0 <= m < all.len() && all[m] == l;
                assert(all[m] == lead(colors@, entries@[m].0 as int));
                assert(entries@[m].0 < n);
                lead_leads(colors@, entries@[m].0 as int);
                if distinct@.take(p as int).contains(l) {
                    let q = choose|q: int|
                        0 <= q < p && distinct@.take(p as int)[q] == l;
                    assert(distinct@[q] < distinct@[p as int]);
                }
                assert(slots@[l as int]@ == picked(entries@, colors@, colors@[l as int], full));
                picked_holds(entries@, colors@, m, full);
            }
            let ghost before = slots@;
            let ghost held = merged@;
            let mut slot: Vec<Real> = Vec::new();
            std::mem::swap(&mut slot, &mut slots[l]);
            match self.finite_sum(&slot) {
                None => {
                    assert(self.class_sum(
                        entries@,
                        colors@,
                        colors@[entries@[m].0 as int],
                    ) is None);
                    return None;
                },
                Some(v) => {
                    if !v.is_zero() {
                        merged.push((l, v));
                        assert(merged@[held.len() as int].0 == l);
                    }
                },
            }
            proof {
                let (less, more) = (distinct@.take(p as int), distinct@.take(p + 1));
                assert(more =~= less.push(l));
                assert forall|x: int| 0 <= x < n implies (#[trigger] slots@[x])@ == (if colors@[x]
                    < n && lead(colors@, x) == x && !more.contains(x as usize) {
                    picked(entries@, colors@, colors@[x], full)
                } else {
                    Seq::empty()
                }) by {
                    assert(more[p as int] == l);
                    if x != l {
                        assert(slots@[x] == before[x]);
                        if less.contains(x as usize) {
                            let q = choose|q: int| 0 <= q < less.len() && less[q] == x as usize;
                            assert(more[q] == x as usize);
                        }
                    }
                }
                assert forall|q: int| 0 <= q < p implies {
                    let l = #[trigger] distinct@[q];
                    self.class_sum(entries@, colors@, colors@[l as int])->Some_0.zero() || exists|
                        k: int,
                    |
                        0 <= k < merged@.len() && (#[trigger] merged@[k]).0 == l
                } by {
                    let l = distinct@[q];
                    if !self.class_sum(entries@, colors@, colors@[l as int])->Some_0.zero() {
                        let k = choose|k: int| 0 <= k < held.len() && (#[trigger] held[k]).0 == l;
                        assert(merged@[k] == held[k]);
                    }
                }
                if held.len() > 0 {
                    assert(distinct@[p - 1] < distinct@[p as int]);
                }
            }
            p = p + 1;
        }
        proof {
            assert(distinct@.take(p as int) =~= distinct@);
            assert forall|x: int| 0 <= x < n implies (#[trigger] slots@[x])@.len() == 0 by {
                if slots@[x]@.len() > 0 {
                    let m = picked_from(entries@, colors@, colors@[x], full);
                    assert(all[m] == lead(colors@, entries@[m].0 as int));
                    assert(lead(colors@, entries@[m].0 as int) == lead(colors@, x));
                    assert(all.contains(x as usize));
                }
            }
            assert forall|m: int| 0 <= m < entries@.len() implies {
                let color = colors@[(#[trigger] entries@[m]).0 as int];
                &&& color < n
                &&& self.class_sum(entries@, colors@, color) is Some
                &&& self.class_sum(entries@, colors@, color)->Some_0.zero() || exists|k: int|
                    0 <= k < merged@.len() && (#[trigger] merged@[k]).0 == lead(
                        colors@,
                        entries@[m].0 as int,
                    )
            } by {
                assert(entries@[m].0 < n);
                lead_leads(colors@, entries@[m].0 as int);
                let l = all[m];
                assert(all.contains(l));
                assert(distinct@.contains(l));
                let q = choose|q: int| 0 <= q < distinct@.len() && distinct@[q] == l;
                assert(self.class_sum(
                    entries@,
                    colors@,
                    colors@[distinct@[q] as int],
                ) is Some);
            }
        }
        Some(merged)
    }
}

/// A value is picked under its color.
proof fn picked_holds(entries: Seq<(usize, Real)>, colors: Seq<usize>, m: int, n: int)
    requires
        0 <= m < n <= entries.len(),
    ensures
        picked(entries, colors, colors[entries[m].0 as int], n).len() > 0,
    decreases n,
{
    if m < n - 1 {
        picked_holds(entries, colors, m, n - 1);
    }
}

/// The work left once the classes of rows from `g` on are merged.
pub open spec fn merging_left(
    a: Map<(int, int), Real>,
    groups: Seq<Seq<usize>>,
    work: usize,
    g: int,
) -> Option<usize>
    decreases groups.len() - g,
{
    if g >= groups.len() {
        Some(work)
    } else {
        let length = listing::line(a, false, groups[g][0] as int).len();
        let cost = sparsify::capped(sparsify::capped((length * 2) as int) + groups[g].len());
        if cost > work {
            None
        } else {
            merging_left(a, groups, (work - cost) as usize, g + 1)
        }
    }
}

/// The number of items before `n` that do not lead their class.
pub open spec fn strays(colors: Seq<usize>, n: int) -> nat
    decreases n,
{
    if n <= 0 {
        0
    } else {
        strays(colors, n - 1) + if colors[n - 1] < colors.len() && lead(colors, n - 1) != n - 1 {
            1nat
        } else {
            0
        }
    }
}

fn count_strays(colors: &Vec<usize>, leads: &Vec<usize>) -> (count: usize)
    requires
        leads@.len() == colors@.len(),
        forall|j: int|
            0 <= j < colors@.len() && colors@[j] < colors@.len() ==> #[trigger] leads@[j] == lead(
                colors@,
                j,
            ),
    ensures
        count == strays(colors@, colors@.len() as int),
        count <= colors@.len(),
{
    let mut count: usize = 0;
    let mut j: usize = 0;
    while j < colors.len()
        invariant
            j <= colors@.len(),
            count <= j,
            count == strays(colors@, j as int),
            leads@.len() == colors@.len(),
            forall|j: int|
                0 <= j < colors@.len() && colors@[j] < colors@.len() ==> #[trigger] leads@[j]
                    == lead(colors@, j),
        decreases colors@.len() - j,
    {
        if colors[j] < colors.len() && leads[j] != j {
            count = count + 1;
        }
        j = j + 1;
    }
    count
}

/// The number of members of every class.
fn class_sizes(colors: &Vec<usize>) -> (sizes: Vec<usize>)
    ensures
        sizes@.len() == colors@.len(),
        forall|x: int|
            0 <= x < sizes@.len() ==> #[trigger] sizes@[x] == components::members(
                colors@,
                x as usize,
                colors@.len(),
            ).len(),
{
    let n: usize = colors.len();
    let mut sizes: Vec<usize> = Vec::new();
    while sizes.len() < n
        invariant
            sizes@.len() <= n,
            forall|x: int| 0 <= x < sizes@.len() ==> #[trigger] sizes@[x] == 0,
        decreases n - sizes@.len(),
    {
        sizes.push(0);
    }
    let mut j: usize = 0;
    while j < n
        invariant
            j <= n,
            n == colors@.len(),
            sizes@.len() == n,
            forall|x: int|
                0 <= x < n ==> #[trigger] sizes@[x] == components::members(
                    colors@,
                    x as usize,
                    j as nat,
                ).len(),
            forall|x: int| 0 <= x < n ==> #[trigger] sizes@[x] <= j,
        decreases n - j,
    {
        let color: usize = colors[j];
        let ghost before = sizes@;
        if color < n {
            let size: usize = sizes[color];
            sizes.set(color, size + 1);
        }
        proof {
            assert forall|x: int| 0 <= x < n implies #[trigger] sizes@[x] == components::members(
                colors@,
                x as usize,
                (j + 1) as nat,
            ).len() && sizes@[x] <= j + 1 by {
                assert(before[x] == components::members(colors@, x as usize, j as nat).len());
                assert(before[x] <= j);
            }
        }
        j = j + 1;
    }
    sizes
}

/// The classes with several members.
fn several(groups: Vec<Vec<usize>>) -> (large: Vec<Vec<usize>>)
    ensures
        semidefinite::views(large@) == semidefinite::larger(semidefinite::views(groups@)),
{
    let mut groups = groups;
    let ghost all = semidefinite::views(groups@);
    let mut large: Vec<Vec<usize>> = Vec::new();
    let mut g: usize = 0;
    proof {
        assert(all.take(0) =~= Seq::empty());
        assert(semidefinite::views(large@) =~= Seq::empty());
    }
    while g < groups.len()
        invariant
            g <= groups@.len(),
            groups@.len() == all.len(),
            forall|h: int| g <= h < groups@.len() ==> (#[trigger] groups@[h])@ == all[h],
            semidefinite::views(large@) == semidefinite::larger(all.take(g as int)),
        decreases groups@.len() - g,
    {
        let mut group: Vec<usize> = Vec::new();
        std::mem::swap(&mut group, &mut groups[g]);
        let ghost before = large@;
        proof {
            assert(all.take(g + 1).drop_last() =~= all.take(g as int));
            assert(group@ == all[g as int]);
        }
        if group.len() != 1 {
            large.push(group);
            assert(semidefinite::views(large@) =~= semidefinite::views(before).push(
                all[g as int],
            ));
        }
        g = g + 1;
    }
    assert(all.take(g as int) =~= all);
    large
}

/// The colors of the rows and columns of a linear program once they settle, with
/// the work that is left.
pub open spec fn fold_colors(model: Model, objective: Objective, rounds: nat, limit: WorkLimit) -> Option<
    (Seq<usize>, Seq<usize>, usize),
> {
    let (m, n) = (model.rows@.len() as int, model.bounds@.len() as int);
    let work = limit.allowance(
        sparsify::capped(
            sparsify::capped(sparsify::capped((model.a@.dom().len() * 64) as int) + m) + n,
        ) as usize,
    );
    if model.cones@.len() > 0 || objective.p@.dom().len() > 0 || sparsify::capped(m + n) > work {
        None
    } else {
        settled(
            model.a@,
            coloring(row_texts(model.rows@)),
            coloring(column_texts(objective.c@, model.bounds@, model.alive@)),
            (work - sparsify::capped(m + n)) as usize,
            rounds,
        )
    }
}

proof fn colors_stay_small<K>(keys: Seq<Option<K>>, i: int)
    requires
        0 <= i < keys.len() <= usize::MAX,
    ensures
        keys[i] is None ==> coloring(keys)[i] == usize::MAX,
        keys[i] is Some ==> coloring(keys)[i] < keys.len(),
{
    first_exists(keys, i);
    classes_fit(keys, first_equal(keys, i));
}

/// Settling keeps the number of lines, and gives no color to one without.
proof fn settling_keeps_lines(
    a: Map<(int, int), Real>,
    rows: Seq<usize>,
    columns: Seq<usize>,
    work: usize,
    rounds: nat,
    i: int,
)
    requires
        settled(a, rows, columns, work, rounds) is Some,
        rows.len() <= usize::MAX,
    ensures
        settled(a, rows, columns, work, rounds)->Some_0.0.len() == rows.len(),
        settled(a, rows, columns, work, rounds)->Some_0.1.len() == columns.len(),
        0 <= i < rows.len() && rows[i] == usize::MAX
            ==> settled(a, rows, columns, work, rounds)->Some_0.0[i] == usize::MAX,
    decreases rounds,
{
    let left = sorting_left(a, false, rows, work, 0)->Some_0;
    let r = coloring(line_keys(a, false, rows, columns));
    let rest = sorting_left(a, true, columns, left, 0)->Some_0;
    let c = coloring(line_keys(a, true, columns, r));
    if 0 <= i < rows.len() {
        colors_stay_small(line_keys(a, false, rows, columns), i);
    }
    if !(r == rows && c == columns) {
        settling_keeps_lines(a, r, c, rest, (rounds - 1) as nat, i);
    }
}

impl<
    P: Fn(Real, Real) -> Real,
    T: Fn(Real, Real) -> Real,
    D: Fn(Real, Real) -> Real,
    H: Fn(Real, Real) -> Real,
> Arithmetic<P, T, D, H> {
    /// The cost of a class of columns that move together.
    pub open spec fn class_cost<C: Fn(usize) -> Real>(
        &self,
        c: Seq<Real>,
        colors: Seq<usize>,
        count: C,
        j: int,
    ) -> Real {
        self.product(
            c[j],
            schedule::counted(
                count,
                components::members(colors, colors[j], colors.len()).len() as usize,
            ),
        )
    }

    /// Every class of columns has a finite cost.
    pub open spec fn costs_finite<C: Fn(usize) -> Real>(
        &self,
        c: Seq<Real>,
        colors: Seq<usize>,
        count: C,
    ) -> bool {
        forall|j: int|
            0 <= j < colors.len() && #[trigger] colors[j] < colors.len() && lead(colors, j) == j
                ==> self.class_cost(c, colors, count, j).finite()
    }

    /// The first row of every class can be merged by the classes of columns.
    pub open spec fn rows_condensable(
        &self,
        a: Map<(int, int), Real>,
        groups: Seq<Seq<usize>>,
        columns: Seq<usize>,
    ) -> bool {
        forall|g: int|
            0 <= g < groups.len() ==> self.condensable(
                listing::line(a, false, (#[trigger] groups[g])[0] as int),
                columns,
            )
    }

    /// Updates that merge the first row of a class or delete another one.
    pub open spec fn row_updates(
        &self,
        updates: Seq<RowUpdate>,
        model: Model,
        rows: Seq<usize>,
        columns: Seq<usize>,
    ) -> bool {
        &&& batch::applicable(updates, model.rows@.len(), model.bounds@.len())
        &&& forall|u: int|
            0 <= u < updates.len() ==> {
                let (i, entries, domain) = #[trigger] updates[u];
                &&& rows[i as int] < rows.len()
                &&& if lead(rows, i as int) == i {
                    domain == model.rows@[i as int] && self.condenses(
                        entries@,
                        listing::line(model.a@, false, i as int),
                        columns,
                    )
                } else {
                    domain is Deleted && entries@.len() == 0
                }
            }
    }

    /// The updates merge the first row of every class and delete the others.
    pub open spec fn fold_updates(
        &self,
        updates: Seq<RowUpdate>,
        model: Model,
        rows: Seq<usize>,
        columns: Seq<usize>,
    ) -> bool {
        &&& self.row_updates(updates, model, rows, columns)
        &&& forall|i: int|
            0 <= i < rows.len() && #[trigger] rows[i] < rows.len() ==> batch::names_row(
                updates,
                updates.len() as int,
                i,
            )
    }

    /// Plan the rows of a folded program.
    #[verifier::rlimit(40)]
    fn plan_fold<E: Fn() -> bool>(
        &self,
        model: &Model,
        rows: &Vec<usize>,
        columns: &Vec<usize>,
        groups: &Vec<Vec<usize>>,
        leads: &Vec<usize>,
        work: usize,
        expired: &E,
    ) -> (r: Option<Vec<RowUpdate>>)
        requires
            self.wf(),
            model.wf(),
            rows@.len() == model.rows@.len(),
            columns@.len() == model.bounds@.len(),
            semidefinite::views(groups@) == components::classes(rows@, rows@.len()),
            forall|i: int|
                0 <= i < rows@.len() && #[trigger] rows@[i] < rows@.len() ==> model.rows@[i] is Linear,
            leads@.len() == columns@.len(),
            forall|j: int|
                0 <= j < columns@.len() && columns@[j] < columns@.len() ==> #[trigger] leads@[j]
                    == lead(columns@, j),
            call_requires(*expired, ()),
        ensures
            match r {
                Some(updates) => {
                    &&& self.fold_updates(updates@, *model, rows@, columns@)
                    &&& merging_left(
                        model.a@,
                        components::classes(rows@, rows@.len()),
                        work,
                        0,
                    ) is Some
                    &&& self.rows_condensable(
                        model.a@,
                        components::classes(rows@, rows@.len()),
                        columns@,
                    )
                },
                None => {
                    ||| call_ensures(*expired, (), true)
                    ||| merging_left(
                        model.a@,
                        components::classes(rows@, rows@.len()),
                        work,
                        0,
                    ) is None
                    ||| !self.rows_condensable(
                        model.a@,
                        components::classes(rows@, rows@.len()),
                        columns@,
                    )
                },
            },
    {
        let m: usize = rows.len();
        let n: usize = columns.len();
        let ghost all = components::classes(rows@, m as nat);
        proof {
            semidefinite::classes_are_exact(rows@, m as nat);
        }
        let mut slots: Vec<Vec<Real>> = Vec::new();
        while slots.len() < n
            invariant
                slots@.len() <= n,
                forall|x: int| 0 <= x < slots@.len() ==> (#[trigger] slots@[x])@.len() == 0,
            decreases n - slots@.len(),
        {
            slots.push(Vec::new());
        }
        let mut updates: Vec<RowUpdate> = Vec::new();
        let mut left: usize = work;
        let mut g: usize = 0;
        while g < groups.len()
            invariant
                self.wf(),
                model.wf(),
                g <= groups@.len(),
                m == rows@.len(),
                n == columns@.len(),
                m == model.rows@.len(),
                n == model.bounds@.len(),
                all == components::classes(rows@, m as nat),
                semidefinite::views(groups@) == all,
                all.len() == groups@.len(),
                semidefinite::classes_of(all, rows@),
                forall|g: int| 0 <= g < all.len() ==> rows@[(#[trigger] all[g])[0] as int] < m,
                forall|i: int|
                    0 <= i < m && #[trigger] rows@[i] < m ==> model.rows@[i] is Linear,
                leads@.len() == n,
                forall|j: int|
                    0 <= j < n && columns@[j] < n ==> #[trigger] leads@[j] == lead(columns@, j),
                call_requires(*expired, ()),
                slots@.len() == n,
                forall|x: int| 0 <= x < n ==> (#[trigger] slots@[x])@.len() == 0,
                merging_left(model.a@, all, work, 0) == merging_left(model.a@, all, left, g as int),
                forall|h: int|
                    0 <= h < g ==> self.condensable(
                        listing::line(model.a@, false, (#[trigger] all[h])[0] as int),
                        columns@,
                    ),
                self.row_updates(updates@, *model, rows@, columns@),
                forall|u: int|
                    0 <= u < updates@.len() ==> g < all.len() ==> rows@[(
                    #[trigger] updates@[u]).0 as int] < rows@[all[g as int][0] as int],
                forall|h: int, a: int|
                    0 <= h < g && 0 <= a < all[h].len() ==> batch::names_row(
                        updates@,
                        updates@.len() as int,
                        (#[trigger] all[h][a]) as int,
                    ),
            decreases groups@.len() - g,
        {
            if expired() {
                return None;
            }
            let group = &groups[g];
            let ghost class = all[g as int];
            assert(group@ == class);
            assert(class.len() > 0);
            assert(all[g as int][0] < m);
            let first: usize = group[0];
            let entries = model.row_entries(first);
            let cost: usize = capped_sum(capped_product(entries.len(), 2), group.len());
            if cost > left {
                return None;
            }
            left = left - cost;
            let merged = match self.condense_row(&entries, columns, leads, &mut slots) {
                None => {
                    assert(!self.condensable(
                        listing::line(model.a@, false, all[g as int][0] as int),
                        columns@,
                    ));
                    return None;
                },
                Some(merged) => merged,
            };
            let ghost before = updates@;
            proof {
                class_is_complete(rows@, m as nat, g as int);
            }
            updates.push((first, merged, model.rows[first]));
            assert(self.row_updates(updates@, *model, rows@, columns@));
            let ghost base = before.len();
            let mut a: usize = 1;
            while a < group.len()
                invariant
                    model.wf(),
                    1 <= a <= group@.len(),
                    g < groups@.len(),
                    m == rows@.len(),
                    m == model.rows@.len(),
                    n == columns@.len(),
                    n == model.bounds@.len(),
                    all == components::classes(rows@, m as nat),
                    all.len() == groups@.len(),
                    class == all[g as int],
                    group@ == class,
                    class == components::members(rows@, rows@[class[0] as int], rows@.len()),
                    rows@[class[0] as int] < m,
                    semidefinite::classes_of(all, rows@),
                    updates@.len() == base + a,
                    base == before.len(),
                    forall|u: int| 0 <= u < base ==> #[trigger] updates@[u] == before[u],
                    forall|b: int|
                        0 <= b < a ==> (#[trigger] updates@[base + b]).0 == class[b],
                    forall|u: int|
                        0 <= u < base ==> rows@[(#[trigger] before[u]).0 as int]
                            < rows@[class[0] as int],
                    self.row_updates(updates@, *model, rows@, columns@),
                decreases group@.len() - a,
            {
                let ghost held = updates@;
                let i: usize = group[a];
                proof {
                    assert(all[g as int][a as int] < m);
                    assert(all[g as int][0] < all[g as int][a as int]);
                    assert forall|u: int| 0 <= u < held.len() implies (#[trigger] held[u]).0 != i by {
                        if u < base {
                            assert(held[u] == before[u]);
                        } else {
                            let b = u - base;
                            assert(held[base + b].0 == class[b]);
                            assert(all[g as int][b] < all[g as int][a as int]);
                        }
                    }
                }
                updates.push((i, Vec::new(), RowDomain::Deleted));
                a = a + 1;
            }
            proof {
                assert forall|h: int, b: int| 0 <= h < g + 1 && 0 <= b < all[h].len() implies
                    batch::names_row(
                    updates@,
                    updates@.len() as int,
                    (#[trigger] all[h][b]) as int,
                ) by {
                    if h < g {
                        assert(batch::names_row(before, before.len() as int, all[h][b] as int));
                        let u = choose|u: int|
                            0 <= u < before.len() && (#[trigger] before[u]).0 == all[h][b];
                        assert(updates@[u] == before[u]);
                    } else {
                        assert(updates@[base + b].0 == class[b]);
                    }
                }
                assert forall|u: int| 0 <= u < updates@.len() && g + 1 < all.len() implies rows@[(
                #[trigger] updates@[u]).0 as int] < rows@[all[g + 1][0] as int] by {
                    assert(rows@[all[g as int][0] as int] < rows@[all[g + 1][0] as int]);
                    if u < base {
                        assert(updates@[u] == before[u]);
                    } else {
                        let b = u - base;
                        assert(updates@[base + b].0 == class[b]);
                        assert(all[g as int][b] < m);
                    }
                }
            }
            g = g + 1;
        }
        proof {
            assert forall|i: int| 0 <= i < m && #[trigger] rows@[i] < m implies batch::names_row(
                updates@,
                updates@.len() as int,
                i,
            ) by {
                let h = choose|h: int| 0 <= h < all.len() && (#[trigger] all[h]).contains(i as usize);
                let a = choose|a: int| 0 <= a < all[h].len() && all[h][a] == i as usize;
                assert(batch::names_row(updates@, updates@.len() as int, all[h][a] as int));
            }
        }
        Some(updates)
    }
}

/// A program that the working storage, or the numbers of its edits, cannot follow
/// through these updates.
pub open spec fn fold_overflows(
    model: Model,
    objective: Objective,
    updates: Seq<RowUpdate>,
    gone: nat,
) -> bool {
    ||| model.a@.dom().len() + eliminate::entry_total(eliminate::new_rows(updates)) > NONE
    ||| model.revision + updates.len() + gone > usize::MAX
    ||| objective.p.edits() + gone > usize::MAX
}

impl<
    P: Fn(Real, Real) -> Real,
    T: Fn(Real, Real) -> Real,
    D: Fn(Real, Real) -> Real,
    H: Fn(Real, Real) -> Real,
> Arithmetic<P, T, D, H> {
    /// Settled colors along which a linear program can be folded.
    pub open spec fn folds_along<C: Fn(usize) -> Real>(
        &self,
        model: Model,
        objective: Objective,
        rows: Seq<usize>,
        columns: Seq<usize>,
        work: usize,
        count: C,
    ) -> bool {
        let groups = components::classes(rows, rows.len());
        &&& strays(rows, rows.len() as int) + strays(columns, columns.len() as int) > 0
        &&& self.costs_finite(objective.c@, columns, count)
        &&& merging_left(model.a@, groups, work, 0) is Some
        &&& self.rows_condensable(model.a@, groups, columns)
    }

    /// The objective and the variables once every class of columns is one column.
    pub open spec fn columns_joined<C: Fn(usize) -> Real>(
        &self,
        before: (Model, Objective),
        after: (Model, Objective),
        columns: Seq<usize>,
        count: C,
    ) -> bool {
        let n = columns.len() as int;
        &&& after.0.alive@ == Seq::new(
            columns.len(),
            |j: int| before.0.alive@[j] && !(columns[j] < n && lead(columns, j) != j),
        )
        &&& after.1.c@ == Seq::new(
            columns.len(),
            |j: int|
                if columns[j] >= n {
                    before.1.c@[j]
                } else if lead(columns, j) == j {
                    self.class_cost(before.1.c@, columns, count, j)
                } else {
                    zero()
                },
        )
        &&& after.1.constant == before.1.constant
        &&& after.1.p@ == before.1.p@
        &&& after.1.p.edits() == before.1.p.edits() + strays(columns, n)
    }

    /// A linear program folded along the colors of its rows and columns.
    pub open spec fn folded_along<C: Fn(usize) -> Real>(
        &self,
        before: (Model, Objective),
        after: (Model, Objective),
        rows: Seq<usize>,
        columns: Seq<usize>,
        count: C,
        updates: Seq<RowUpdate>,
        touched: Seq<usize>,
    ) -> bool {
        &&& self.fold_updates(updates, before.0, rows, columns)
        &&& batch::updated_matrix(after.0.a@, before.0.a@, updates)
        &&& after.0.rows@ == batch::updated_domains(before.0.rows@, updates, updates.len())
        &&& after.0.bounds@ == before.0.bounds@
        &&& fold_added(before.0.tape@, after.0.tape@, rows, columns)
        &&& after.0.revision == before.0.revision + updates.len() + strays(
            columns,
            columns.len() as int,
        )
        &&& order::strictly_ascending(touched)
        &&& forall|k: usize| #[trigger]
            touched.contains(k) <==> exists|u: int|
                0 <= u < updates.len() && linked::changes(
                    before.0.a@,
                    after.0.a@,
                    (#[trigger] updates[u]).0 as int,
                    k as int,
                )
        &&& after.0.queues@ == batch::updates_noted(
            batch::touched_noted(before.0.queues@, touched, before.0.alive@, after.0.a@),
            updates,
            after.0.a@,
            updates.len(),
        )
        &&& self.columns_joined(before, after, columns, count)
    }

    /// A folded row keeps coefficients only in the first columns of classes.
    pub proof fn folded_rows_hold_leads_only<C: Fn(usize) -> Real>(
        &self,
        before: (Model, Objective),
        after: (Model, Objective),
        rows: Seq<usize>,
        columns: Seq<usize>,
        count: C,
        updates: Seq<RowUpdate>,
        touched: Seq<usize>,
        i: int,
        j: int,
    )
        requires
            self.folded_along(before, after, rows, columns, count, updates, touched),
            0 <= i < rows.len(),
            rows[i] < rows.len(),
            after.0.a@.contains_key((i, j)),
        ensures
            lead(rows, i) == i,
            lead(columns, j) == j,
    {
        assert(batch::names_row(updates, updates.len() as int, i));
        let u = choose|u: int| 0 <= u < updates.len() && (#[trigger] updates[u]).0 == i;
        let entries = updates[u].1@;
        assert(linked::lists_line(entries, after.0.a@, false, i));
        assert(after.0.a@.contains_key(linked::place(false, i, j)));
        let k = choose|k: int| 0 <= k < entries.len() && (#[trigger] entries[k]).0 == j;
        assert(entries[k].0 == j);
    }

    /// The costs of the columns that stay.
    fn class_costs<C: Fn(usize) -> Real>(
        &self,
        c: &Vec<Real>,
        colors: &Vec<usize>,
        leads: &Vec<usize>,
        count: &C,
    ) -> (r: Option<Vec<Real>>)
        requires
            self.wf(),
            schedule::counts(*count),
            c@.len() == colors@.len(),
            leads@.len() == colors@.len(),
            forall|j: int|
                0 <= j < colors@.len() && colors@[j] < colors@.len() ==> #[trigger] leads@[j]
                    == lead(colors@, j),
        ensures
            match r {
                Some(costs) => {
                    &&& self.costs_finite(c@, colors@, *count)
                    &&& costs@ == Seq::new(
                        colors@.len(),
                        |j: int|
                            if colors@[j] >= colors@.len() {
                                c@[j]
                            } else if lead(colors@, j) == j {
                                self.class_cost(c@, colors@, *count, j)
                            } else {
                                zero()
                            },
                    )
                },
                None => !self.costs_finite(c@, colors@, *count),
            },
    {
        let sizes = class_sizes(colors);
        let mut costs: Vec<Real> = Vec::new();
        let mut j: usize = 0;
        while j < colors.len()
            invariant
                self.wf(),
                schedule::counts(*count),
                j <= colors@.len(),
                c@.len() == colors@.len(),
                leads@.len() == colors@.len(),
                forall|j: int|
                    0 <= j < colors@.len() && colors@[j] < colors@.len() ==> #[trigger] leads@[j]
                        == lead(colors@, j),
                sizes@.len() == colors@.len(),
                forall|x: int|
                    0 <= x < sizes@.len() ==> #[trigger] sizes@[x] == components::members(
                        colors@,
                        x as usize,
                        colors@.len(),
                    ).len(),
                costs@.len() == j,
                forall|m: int|
                    0 <= m < j ==> #[trigger] costs@[m] == (if colors@[m] >= colors@.len() {
                        c@[m]
                    } else if lead(colors@, m) == m {
                        self.class_cost(c@, colors@, *count, m)
                    } else {
                        zero()
                    }),
                forall|m: int|
                    0 <= m < j && #[trigger] colors@[m] < colors@.len() && lead(colors@, m) == m
                        ==> self.class_cost(c@, colors@, *count, m).finite(),
            decreases colors@.len() - j,
        {
            let color: usize = colors[j];
            if color >= colors.len() {
                costs.push(c[j]);
            } else if leads[j] == j {
                let size = count(sizes[color]);
                assert(size == schedule::counted(*count, sizes@[color as int]));
                let cost = self.product_of(c[j], size);
                assert(cost == self.class_cost(c@, colors@, *count, j as int));
                if !cost.is_finite() {
                    assert(colors@[j as int] < colors@.len());
                    return None;
                }
                costs.push(cost);
            } else {
                costs.push(zero());
            }
            j = j + 1;
        }
        assert(costs@ =~= Seq::new(
            colors@.len(),
            |j: int|
                if colors@[j] >= colors@.len() {
                    c@[j]
                } else if lead(colors@, j) == j {
                    self.class_cost(c@, colors@, *count, j)
                } else {
                    zero()
                },
        ));
        Some(costs)
    }

    /// Join every class of columns in its first one.
    fn fold_columns(
        &self,
        model: &mut Model,
        objective: &mut Objective,
        colors: &Vec<usize>,
        leads: &Vec<usize>,
        costs: Vec<Real>,
    )
        requires
            old(model).wf(),
            old(objective).wf(),
            old(objective).c@.len() == old(model).bounds@.len(),
            colors@.len() == old(model).bounds@.len(),
            costs@.len() == colors@.len(),
            leads@.len() == colors@.len(),
            forall|j: int|
                0 <= j < colors@.len() && colors@[j] < colors@.len() ==> #[trigger] leads@[j]
                    == lead(colors@, j),
            old(objective).p@.dom().len() == 0,
            old(model).revision + strays(colors@, colors@.len() as int) <= usize::MAX,
            old(objective).p.edits() + strays(colors@, colors@.len() as int) <= usize::MAX,
        ensures
            final(model).wf(),
            final(objective).wf(),
            final(objective).c@ == costs@,
            final(objective).constant == old(objective).constant,
            final(objective).p@ == old(objective).p@,
            final(objective).p.edits() == old(objective).p.edits() + strays(
                colors@,
                colors@.len() as int,
            ),
            *final(model) == (Model {
                alive: final(model).alive,
                revision: final(model).revision,
                ..*old(model)
            }),
            final(model).revision == old(model).revision + strays(
                colors@,
                colors@.len() as int,
            ),
            final(model).alive@ == Seq::new(
                colors@.len(),
                |j: int|
                    old(model).alive@[j] && !(colors@[j] < colors@.len() && lead(colors@, j) != j),
            ),
    {
        let ghost (start, aims) = (*model, *objective);
        proof {
            start.a.counts_fit();
            aims.p.stored_positions();
            assert(aims.p@.dom() =~= Set::empty());
        }
        let mut j: usize = 0;
        while j < colors.len()
            invariant
                j <= colors@.len(),
                model.wf(),
                objective.wf(),
                colors@.len() == model.bounds@.len(),
                objective.c@ == aims.c@,
                objective.constant == aims.constant,
                objective.p.size() == aims.p.size(),
                aims.p.size() == colors@.len(),
                aims.p@.dom() == Set::<(int, int)>::empty(),
                objective.p@ == aims.p@,
                objective.p.edits() == aims.p.edits() + strays(colors@, j as int),
                aims.p.edits() + strays(colors@, colors@.len() as int) <= usize::MAX,
                start.revision + strays(colors@, colors@.len() as int) <= usize::MAX,
                leads@.len() == colors@.len(),
                forall|j: int|
                    0 <= j < colors@.len() && colors@[j] < colors@.len() ==> #[trigger] leads@[j]
                        == lead(colors@, j),
                *model == (Model { alive: model.alive, revision: model.revision, ..start }),
                model.revision == start.revision + strays(colors@, j as int),
                model.alive@.len() == colors@.len(),
                forall|m: int|
                    0 <= m < colors@.len() ==> #[trigger] model.alive@[m] == (start.alive@[m] && !(m
                        < j && colors@[m] < colors@.len() && lead(colors@, m) != m)),
            decreases colors@.len() - j,
        {
            if colors[j] < colors.len() && leads[j] != j {
                proof {
                    strays_grow(colors@, j + 1, colors@.len() as int);
                }
                objective.p.remove_variable(j);
                proof {
                    assert(objective.p@ =~= aims.p@);
                }
                model.alive.set(j, false);
                model.revision = model.revision + 1;
            }
            j = j + 1;
        }
        objective.c = costs;
        assert(model.alive@ =~= Seq::new(
            colors@.len(),
            |j: int|
                start.alive@[j] && !(colors@[j] < colors@.len() && lead(colors@, j) != j),
        ));
    }

    /// Fold a linear program along classes of rows and columns that no coefficient
    /// tells apart: a class of columns moves together in its first column, and a
    /// class of rows is one row.
    pub fn fold_lp<C: Fn(usize) -> Real, E: Fn() -> bool>(
        &self,
        model: &mut Model,
        objective: &mut Objective,
        max_rounds: usize,
        work_limit: WorkLimit,
        count: &C,
        expired: &E,
    ) -> (r: Option<usize>)
        requires
            self.wf(),
            old(model).wf(),
            old(objective).wf(),
            old(objective).c@.len() == old(model).bounds@.len(),
            schedule::counts(*count),
            call_requires(*expired, ()),
        ensures
            self.fold_lp_done(
                passes::work(*old(model), *old(objective)),
                passes::work(*final(model), *final(objective)),
                max_rounds,
                work_limit,
                *count,
                *expired,
                r,
            ),
    {
        let ghost (start, aims) = (*model, *objective);
        let (m, n): (usize, usize) = (model.rows.len(), model.bounds.len());
        if model.cones.len() > 0 || objective.p.nnz() != 0 || max_rounds == 0 {
            return None;
        }
        let work: usize = work_limit.resolve(
            capped_sum(capped_sum(capped_product(model.a.nnz(), 64), m), n),
        );
        let size: usize = capped_sum(m, n);
        if size > work || expired() {
            return None;
        }
        let first_rows = color_rows(&model.rows);
        let first_columns = color_columns(&objective.c, &model.bounds, &model.alive);
        let ghost (rows0, columns0) = (first_rows@, first_columns@);
        let (rows, columns, left): (Vec<usize>, Vec<usize>, usize) = match model.settle(
            first_rows,
            first_columns,
            work - size,
            max_rounds,
            expired,
        ) {
            None => {
                return None;
            },
            Some(found) => found,
        };
        proof {
            assert forall|i: int|
                0 <= i < rows@.len() && #[trigger] rows@[i] < rows@.len() implies model.rows@[i] is Linear by {
                settling_keeps_lines(
                    model.a@,
                    rows0,
                    columns0,
                    (work - size) as usize,
                    max_rounds as nat,
                    i,
                );
                colors_stay_small(row_texts(model.rows@), i);
            }
        }
        let row_groups = components::group_labels(&rows);
        let column_groups = components::group_labels(&columns);
        proof {
            assert(semidefinite::views(row_groups@) =~= components::classes(rows@, rows@.len()));
            assert(semidefinite::views(column_groups@) =~= components::classes(
                columns@,
                columns@.len(),
            ));
        }
        let row_leads = lead_items(&rows, &row_groups);
        let leads = lead_items(&columns, &column_groups);
        let gone: usize = count_strays(&columns, &leads);
        let less: usize = count_strays(&rows, &row_leads);
        if gone == 0 && less == 0 {
            return None;
        }
        let costs = match self.class_costs(&objective.c, &columns, &leads, count) {
            None => {
                return None;
            },
            Some(costs) => costs,
        };
        let updates = match self.plan_fold(
            model,
            &rows,
            &columns,
            &row_groups,
            &leads,
            left,
            expired,
        ) {
            None => {
                return None;
            },
            Some(updates) => updates,
        };
        if expired() {
            return None;
        }
        let total: u128 = eliminate::count_entries(&updates);
        let changes: usize = updates.len();
        proof {
            eliminate::totals_agree(updates@);
        }
        assert(self.fold_updates(updates@, start, rows@, columns@));
        if total > NONE as u128 || model.a.nnz() as u128 + total > NONE as u128 {
            return None;
        }
        if model.revision as u128 + changes as u128 + gone as u128 > usize::MAX as u128 {
            return None;
        }
        if objective.p.revision() as u128 + gone as u128 > usize::MAX as u128 {
            return None;
        }
        let touched = model.replace_rows_batch(&updates);
        self.fold_columns(model, objective, &columns, &leads, costs);
        let ghost noted = model.tape@;
        model.tape.push(
            Rule::LpFold { columns: several(column_groups), rows: several(row_groups) },
        );
        proof {
            assert(model.tape@.drop_last() =~= noted);
            assert(fold_added(start.tape@, model.tape@, rows@, columns@));
            let (cs, rs) = (model.tape@.last()->LpFold_columns, model.tape@.last()->LpFold_rows);
            fold_fits(cs@, columns@);
            fold_fits(rs@, rows@);
            assert forall|k: int| 0 <= k < model.tape@.len() implies tape::rule_fits(
                #[trigger] model.tape@[k],
                model.bounds@.len(),
                model.rows@.len(),
            ) by {
                if k < noted.len() {
                    assert(model.tape@[k] == noted[k]);
                }
            }
            assert(self.folded_along(
                (start, aims),
                (*model, *objective),
                rows@,
                columns@,
                *count,
                updates@,
                touched@,
            ));
        }
        Some(capped_sum(less, gone))
    }
}

/// A tape with the record of a fold along the colors of rows and columns.
pub open spec fn fold_added(
    before: Seq<Rule>,
    after: Seq<Rule>,
    rows: Seq<usize>,
    columns: Seq<usize>,
) -> bool {
    &&& after.len() == before.len() + 1
    &&& after.drop_last() == before
    &&& after.last() matches Rule::LpFold { columns: cs, rows: rs } && {
        &&& semidefinite::views(cs@) == semidefinite::larger(
            components::classes(columns, columns.len()),
        )
        &&& semidefinite::views(rs@) == semidefinite::larger(components::classes(rows, rows.len()))
    }
}

/// The record of a fold speaks of lines that exist.
proof fn fold_fits(groups: Seq<Vec<usize>>, labels: Seq<usize>)
    requires
        labels.len() <= usize::MAX,
        semidefinite::views(groups) == semidefinite::larger(
            components::classes(labels, labels.len()),
        ),
    ensures
        lifting::classes_within(groups, labels.len()),
{
    let all = components::classes(labels, labels.len());
    semidefinite::classes_are_exact(labels, labels.len());
    semidefinite::larger_classes(all, labels);
    let big = semidefinite::larger(all);
    assert forall|g: int| 0 <= g < groups.len() implies (#[trigger] groups[g])@.len() > 0
        && tape::all_within(groups[g]@, labels.len()) by {
        assert(semidefinite::views(groups)[g] == groups[g]@);
        assert forall|k: int| 0 <= k < groups[g]@.len() implies (#[trigger] groups[g]@[k])
            < labels.len() by {
            assert(big[g][k] < labels.len());
        }
    }
}

proof fn strays_grow(colors: Seq<usize>, m: int, n: int)
    requires
        0 <= m <= n,
    ensures
        strays(colors, m) <= strays(colors, n),
    decreases n - m,
{
    if m < n {
        strays_grow(colors, m, n - 1);
    }
}

impl<
    P: Fn(Real, Real) -> Real,
    T: Fn(Real, Real) -> Real,
    D: Fn(Real, Real) -> Real,
    H: Fn(Real, Real) -> Real,
> Arithmetic<P, T, D, H> {
    /// What a fold does and reports.
    pub open spec fn fold_lp_done<C: Fn(usize) -> Real, E: Fn() -> bool>(
        &self,
        before: Work,
        after: Work,
        max_rounds: usize,
        work_limit: WorkLimit,
        count: C,
        expired: E,
        r: Option<usize>,
    ) -> bool {
        &&& after.model.wf()
        &&& after.objective.wf()
        &&& after.objective.c@.len() == after.model.bounds@.len()
        &&& ({
                let colors = fold_colors(
                    before.model,
                    before.objective,
                    max_rounds as nat,
                    work_limit,
                );
                match r {
                    None => {
                        &&& after.model == before.model
                        &&& after.objective == before.objective
                        &&& {
                            ||| call_ensures(expired, (), true)
                            ||| colors is None
                            ||| !self.folds_along(
                                before.model,
                                before.objective,
                                colors->Some_0.0,
                                colors->Some_0.1,
                                colors->Some_0.2,
                                count,
                            )
                            ||| exists|updates: Seq<RowUpdate>| #[trigger]
                                self.fold_updates(
                                    updates,
                                    before.model,
                                    colors->Some_0.0,
                                    colors->Some_0.1,
                                ) && fold_overflows(
                                    before.model,
                                    before.objective,
                                    updates,
                                    strays(
                                        colors->Some_0.1,
                                        colors->Some_0.1.len() as int,
                                    ),
                                )
                        }
                    },
                    Some(removed) => {
                        &&& colors is Some
                        &&& self.folds_along(
                            before.model,
                            before.objective,
                            colors->Some_0.0,
                            colors->Some_0.1,
                            colors->Some_0.2,
                            count,
                        )
                        &&& exists|updates: Seq<RowUpdate>, touched: Seq<usize>| #[trigger]
                            self.folded_along(
                                (before.model, before.objective),
                                (after.model, after.objective),
                                colors->Some_0.0,
                                colors->Some_0.1,
                                count,
                                updates,
                                touched,
                            )
                        &&& removed == sparsify::capped(
                            (strays(colors->Some_0.0, colors->Some_0.0.len() as int) + strays(
                                colors->Some_0.1,
                                colors->Some_0.1.len() as int,
                            )) as int,
                        )
                    },
                }
            })
    }
}

} // verus!
