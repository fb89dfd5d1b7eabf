//! Sums keyed by name, in the order of the names.

use crate::strings;
use vstd::prelude::*;

verus! {

/// The nearest 128-bit integer.
pub open spec fn clamped(n: int) -> int {
    if n > i128::MAX {
        i128::MAX as int
    } else if n < i128::MIN {
        i128::MIN as int
    } else {
        n
    }
}

/// Names in order, each with a sum.
pub struct Sums {
    pub names: Vec<String>,
    pub values: Vec<i128>,
}

/// The sum under a name; a name that is missing has none, which counts as zero.
pub open spec fn sum_of(sums: Map<Seq<char>, int>, name: Seq<char>) -> int {
    if sums.dom().contains(name) {
        sums[name]
    } else {
        0
    }
}

/// The sums after one addition.
pub open spec fn added(sums: Map<Seq<char>, int>, name: Seq<char>, n: int) -> Map<Seq<char>, int> {
    sums.insert(name, clamped(sum_of(sums, name) + n))
}

/// The sums after a list of additions.
pub open spec fn added_all(sums: Map<Seq<char>, int>, list: Seq<(Seq<char>, int)>) -> Map<
    Seq<char>,
    int,
>
    decreases list.len(),
{
    if list.len() == 0 {
        sums
    } else {
        added(added_all(sums, list.drop_last()), list.last().0, list.last().1)
    }
}

pub proof fn additions_append(
    sums: Map<Seq<char>, int>,
    first: Seq<(Seq<char>, int)>,
    second: Seq<(Seq<char>, int)>,
)
    ensures
        added_all(sums, first + second) == added_all(added_all(sums, first), second),
    decreases second.len(),
{
    if second.len() == 0 {
        assert(first + second =~= first);
    } else {
        additions_append(sums, first, second.drop_last());
        assert((first + second).drop_last() =~= first + second.drop_last());
        assert((first + second).last() == second.last());
    }
}

impl Sums {
    pub open spec fn wf(&self) -> bool {
        &&& self.names@.len() == self.values@.len()
        &&& strings::ascending(strings::strings(self.names@))
    }

    pub open spec fn view(&self) -> Map<Seq<char>, int> {
        Map::new(
            |s: Seq<char>| strings::strings(self.names@).contains(s),
            |s: Seq<char>| self.values@[strings::strings(self.names@).index_of(s)] as int,
        )
    }

    /// The names with their sums.
    pub open spec fn pairs(&self) -> Seq<(Seq<char>, int)> {
        Seq::new(self.names@.len(), |k: int| (self.names@[k]@, self.values@[k] as int))
    }

    /// The sum at a place is the sum under its name.
    pub proof fn at(&self, k: int)
        requires
            self.wf(),
            0 <= k < self.names@.len(),
        ensures
            self@.dom().contains(self.names@[k]@),
            self@[self.names@[k]@] == self.values@[k],
            self.pairs()[k] == (self.names@[k]@, self.values@[k] as int),
    {
        let all = strings::strings(self.names@);
        strings::ascending_is_distinct(all);
        assert(all[k] == self.names@[k]@);
        assert(all.contains(all[k]));
        assert(all.index_of(all[k]) == k);
    }

    pub fn new() -> (r: Sums)
        ensures
            r.wf(),
            r@ == Map::<Seq<char>, int>::empty(),
            r.names@.len() == 0,
    {
        let r = Sums { names: Vec::new(), values: Vec::new() };
        assert(r@ =~= Map::<Seq<char>, int>::empty());
        r
    }

    pub fn add(&mut self, name: &str, n: i128)
        requires
            old(self).wf(),
        ensures
            final(self).wf(),
            final(self)@ == added(old(self)@, name@, n as int),
    {
        let ghost start = *self;
        let ghost names = strings::strings(start.names@);
        let (found, at): (bool, usize) = strings::place(&self.names, name);
        proof {
            strings::ascending_is_distinct(names);
        }
        if found {
            proof {
                start.at(at as int);
            }
            let next: i128 = raised(self.values[at], n);
            self.values.set(at, next);
            proof {
                assert(strings::strings(self.names@) == names);
                assert forall|s: Seq<char>| self@.dom().contains(s) implies self@[s] == added(
                    start@,
                    name@,
                    n as int,
                )[s] by {
                    let k = names.index_of(s);
                    assert(names[k] == s);
                    if k != at {
                        assert(names[at as int] == name@);
                        assert(s != name@);
                    }
                }
                assert(names[at as int] == name@);
                assert(self@ =~= added(start@, name@, n as int));
            }
        } else {
            self.names.insert(at, strings::copy(name));
            self.values.insert(at, n);
            proof {
                let after = strings::strings(self.names@);
                assert(after =~= names.insert(at as int, name@));
                assert forall|i: int, j: int| 0 <= i < j < after.len() implies strings::precedes(
                    #[trigger] after[i],
                    #[trigger] after[j],
                ) by {
                    let from = |k: int|
                        if k < at {
                            k
                        } else {
                            k - 1
                        };
                    if i != at {
                        assert(after[i] == names[from(i)]);
                    }
                    if j != at {
                        assert(after[j] == names[from(j)]);
                    }
                }
                strings::ascending_is_distinct(after);
                assert(after[at as int] == name@);
                let goal = added(start@, name@, n as int);
                assert forall|s: Seq<char>| #[trigger] self@.dom().contains(s) implies goal.dom().contains(s)
                    && self@[s] == goal[s] by {
                    let k = after.index_of(s);
                    assert(after[k] == s);
                    if k != at {
                        let i = if k < at {
                            k
                        } else {
                            k - 1
                        };
                        assert(names[i] == s);
                        assert(names.contains(s));
                        assert(names.index_of(s) == i);
                        assert(s != name@);
                    }
                }
                assert forall|s: Seq<char>| goal.dom().contains(s) implies self@.dom().contains(s) by {
                    if s != name@ {
                        let i = names.index_of(s);
                        assert(names[i] == s);
                        let k = if i < at {
                            i
                        } else {
                            i + 1
                        };
                        assert(after[k] == s);
                    } else {
                        assert(after[at as int] == s);
                    }
                }
                assert(self@ =~= goal);
            }
        }
    }
}

fn raised(sum: i128, n: i128) -> (r: i128)
    ensures
        r == clamped(sum + n),
{
    match sum.checked_add(n) {
        Some(r) => r,
        None => if n > 0 {
            i128::MAX
        } else {
            i128::MIN
        },
    }
}

} // verus!
