//! Names in the order of their first appearance, found again by hash.

use crate::text;
use std::collections::HashMap;
use vstd::prelude::*;

verus! {

broadcast use vstd::std_specs::hash::group_hash_axioms;

/// The place of a name in a list of distinct names.
pub open spec fn find(names: Seq<Seq<char>>, name: Seq<char>) -> Option<int> {
    if exists|k: int| 0 <= k < names.len() && #[trigger] names[k] == name {
        Some(choose|k: int| 0 <= k < names.len() && #[trigger] names[k] == name)
    } else {
        None
    }
}

/// In a list of distinct names, every name is found where it stands.
pub proof fn found_where_it_stands(names: Seq<Seq<char>>, k: int)
    requires
        names.no_duplicates(),
        0 <= k < names.len(),
    ensures
        find(names, names[k]) == Some(k),
{
    let name = names[k];
    assert(names[k] == name);
    let l = choose|l: int| 0 <= l < names.len() && #[trigger] names[l] == name;
    assert(names[l] == name);
}

/// Mixes the characters of a name.
pub open spec fn hash(name: Seq<char>) -> u64
    decreases name.len(),
{
    if name.len() == 0 {
        0xcbf29ce484222325
    } else {
        mixed(hash(name.drop_last()), name.last())
    }
}

pub open spec fn mixed(h: u64, c: char) -> u64 {
    ((h ^ (c as u32 as u64)) * 0x100000001b3 % 0x1_0000_0000_0000_0000) as u64
}

fn hash_of(name: &Vec<char>) -> (h: u64)
    ensures
        h == hash(name@),
{
    let mut h: u64 = 0xcbf29ce484222325;
    let mut k: usize = 0;
    assert(name@.take(0) =~= Seq::<char>::empty());
    while k < name.len()
        invariant
            k <= name@.len(),
            h == hash(name@.take(k as int)),
        decreases name@.len() - k,
    {
        let c: u64 = name[k] as u32 as u64;
        let wide: u128 = (h ^ c) as u128;
        proof {
            assert(wide * 0x100000001b3 <= u128::MAX) by (nonlinear_arith)
                requires
                    wide <= u64::MAX,
            ;
            assert(name@.take(k + 1).drop_last() =~= name@.take(k as int));
        }
        h = (wide * 0x100000001b3 % 0x1_0000_0000_0000_0000) as u64;
        k = k + 1;
    }
    assert(name@.take(k as int) =~= name@);
    h
}

/// A list of distinct names with a hash table of their places.
pub struct Names {
    list: Vec<Vec<char>>,
    buckets: HashMap<u64, Vec<usize>>,
}

impl View for Names {
    type V = Seq<Seq<char>>;

    closed spec fn view(&self) -> Seq<Seq<char>> {
        text::texts(self.list@)
    }
}

impl Names {
    pub closed spec fn wf(&self) -> bool {
        &&& self@.no_duplicates()
        &&& forall|h: u64, k: int|
            self.buckets@.contains_key(h) && 0 <= k < self.buckets@[h]@.len() ==> (
            #[trigger] self.buckets@[h]@[k]) < self.list@.len()
        &&& forall|k: int|
            0 <= k < self.list@.len() ==> self.buckets@.contains_key(
                hash((#[trigger] self.list@[k])@),
            ) && self.buckets@[hash(self.list@[k]@)]@.contains(k as usize)
    }

    /// The names are counted in machine words.
    pub proof fn fits(&self)
        requires
            self.wf(),
        ensures
            self@.len() <= usize::MAX,
            self@.no_duplicates(),
    {
        assert(self.list.len() == self.list@.len());
    }

    pub fn new() -> (names: Self)
        ensures
            names.wf(),
            names@ == Seq::<Seq<char>>::empty(),
    {
        let names = Names { list: Vec::new(), buckets: HashMap::new() };
        assert(names@ =~= Seq::<Seq<char>>::empty());
        names
    }

    pub fn len(&self) -> (n: usize)
        ensures
            n == self@.len(),
    {
        self.list.len()
    }

    pub fn at(&self, k: usize) -> (name: &Vec<char>)
        requires
            k < self@.len(),
        ensures
            name@ == self@[k as int],
    {
        &self.list[k]
    }

    /// Look a name up.
    pub fn get(&self, name: &Vec<char>) -> (place: Option<usize>)
        requires
            self.wf(),
        ensures
            match place {
                Some(k) => find(self@, name@) == Some(k as int) && k < self@.len() && self@[k as int]
                    == name@,
                None => find(self@, name@) is None,
            },
    {
        let h: u64 = hash_of(name);
        match self.buckets.get(&h) {
            None => {
                proof {
                    if find(self@, name@) is Some {
                        let k = choose|k: int| 0 <= k < self@.len() && #[trigger] self@[k] == name@;
                        assert(self.list@[k]@ == name@);
                    }
                }
                None
            },
            Some(bucket) => {
                let mut b: usize = 0;
                while b < bucket.len()
                    invariant
                        b <= bucket@.len(),
                        self.wf(),
                        h == hash(name@),
                        self.buckets@.contains_key(h),
                        self.buckets@[h] == *bucket,
                        forall|c: int|
                            0 <= c < b ==> self@[(#[trigger] bucket@[c]) as int] != name@,
                    decreases bucket@.len() - b,
                {
                    let k: usize = bucket[b];
                    assert(self.buckets@[h]@[b as int] < self.list@.len());
                    if text::same(&self.list[k], name) {
                        proof {
                            assert(self@[k as int] == name@);
                            found_where_it_stands(self@, k as int);
                        }
                        return Some(k);
                    }
                    b = b + 1;
                }
                proof {
                    if find(self@, name@) is Some {
                        let k = choose|k: int| 0 <= k < self@.len() && #[trigger] self@[k] == name@;
                        assert(self.list@[k]@ == name@);
                        assert(bucket@.contains(k as usize));
                        let c = choose|c: int| 0 <= c < bucket@.len() && bucket@[c] == k as usize;
                        assert(self.list.len() == self.list@.len());
                        assert(self@[bucket@[c] as int] == name@);
                    }
                }
                None
            },
        }
    }

    /// Append a name that is not in the list yet.
    pub fn push(&mut self, name: Vec<char>)
        requires
            old(self).wf(),
            find(old(self)@, name@) is None,
        ensures
            final(self).wf(),
            final(self)@ == old(self)@.push(name@),
    {
        let ghost start = *self;
        let k: usize = self.list.len();
        let h: u64 = hash_of(&name);
        let mut bucket: Vec<usize> = match self.buckets.remove(&h) {
            Some(bucket) => bucket,
            None => Vec::new(),
        };
        let ghost before = bucket@;
        bucket.push(k);
        self.buckets.insert(h, bucket);
        let ghost text = name@;
        self.list.push(name);
        proof {
            assert(self@ =~= start@.push(text));
            assert forall|a: int, b: int| 0 <= a < self@.len() && 0 <= b < self@.len() && a
                != b implies self@[a] != self@[b] by {
                if a < start@.len() && b < start@.len() {
                    assert(start@[a] != start@[b]);
                } else {
                    let low = if a < start@.len() {
                        a
                    } else {
                        b
                    };
                    assert(start@[low] == self@[low]);
                    assert(start@[low] != text);
                }
            }
            assert(self.list.len() == self.list@.len());
            assert forall|i: int| 0 <= i < self.list@.len() implies self.buckets@.contains_key(
                hash((#[trigger] self.list@[i])@),
            ) && self.buckets@[hash(self.list@[i]@)]@.contains(i as usize) by {
                if i < start.list@.len() {
                    assert(self.list@[i] == start.list@[i]);
                    let g = hash(start.list@[i]@);
                    assert(start.buckets@[g]@.contains(i as usize));
                    if g == h {
                        let c = choose|c: int| 0 <= c < before.len() && before[c] == i as usize;
                        assert(self.buckets@[h]@[c] == i as usize);
                    }
                } else {
                    assert(self.buckets@[h]@[before.len() as int] == k);
                }
            }
            assert forall|g: u64, c: int|
                self.buckets@.contains_key(g) && 0 <= c < self.buckets@[g]@.len() implies (
            #[trigger] self.buckets@[g]@[c]) < self.list@.len() by {
                if g == h {
                    if c < before.len() {
                        assert(self.buckets@[h]@[c] == before[c]);
                        assert(start.buckets@[h]@[c] < start.list@.len());
                    }
                } else {
                    assert(start.buckets@[g]@[c] < start.list@.len());
                }
            }
        }
    }
}

} // verus!
