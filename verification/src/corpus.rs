//! Benchmark instances: each directory is a family, and each MPS file in it
//! is an instance.

use crate::sorting;
use crate::strings;
use crate::text;
use vstd::prelude::*;

verus! {

pub struct Instance {
    pub family: String,
    pub name: String,
    pub path: String,
}

impl Instance {
    pub open spec fn key(&self) -> Seq<char> {
        self.family@ + "/"@ + self.name@
    }

    /// `family/name`, which identifies an instance across snapshots.
    pub fn id(&self) -> (r: String)
        ensures
            r@ == self.key(),
    {
        let mut out = text::to_chars(self.family.as_str());
        text::put(&mut out, "/");
        text::put(&mut out, self.name.as_str());
        text::to_text(&out)
    }
}

/// A text without an ending, if it has that ending.
pub open spec fn without_suffix(s: Seq<char>, suffix: Seq<char>) -> Option<Seq<char>> {
    if suffix.is_suffix_of(s) {
        Some(s.take(s.len() - suffix.len()))
    } else {
        None
    }
}

/// The name of the instance in a file: plain or compressed MPS, nothing else.
pub open spec fn name_of(file: Seq<char>) -> Option<Seq<char>> {
    match without_suffix(file, ".mps.gz"@) {
        Some(name) => Some(name),
        None => without_suffix(file, ".mps"@),
    }
}

fn strip_suffix(file: &Vec<char>, suffix: &str) -> (r: Option<String>)
    ensures
        match r {
            Some(name) => without_suffix(file@, suffix@) == Some(name@),
            None => without_suffix(file@, suffix@) is None,
        },
{
    let end = text::to_chars(suffix);
    if file.len() < end.len() {
        return None;
    }
    let at: usize = file.len() - end.len();
    let tail = text::slice(file, at, file.len());
    proof {
        assert(end@.is_suffix_of(file@) == (end@ =~= file@.subrange(
            at as int,
            file@.len() as int,
        )));
    }
    if text::same(&tail, &end) {
        let name = text::slice(file, 0, at);
        assert(name@ =~= file@.take(at as int));
        Some(text::to_text(&name))
    } else {
        None
    }
}

pub fn instance_name(file: &str) -> (r: Option<String>)
    ensures
        match r {
            Some(name) => name_of(file@) == Some(name@),
            None => name_of(file@) is None,
        },
{
    let chars = text::to_chars(file);
    match strip_suffix(&chars, ".mps.gz") {
        Some(name) => Some(name),
        None => strip_suffix(&chars, ".mps"),
    }
}

/// The selected families, each once and in order.
pub fn families(selected: &Vec<String>) -> (out: Vec<String>)
    ensures
        strings::ascending(strings::strings(out@)),
        strings::strings(out@).to_set() == strings::strings(selected@).to_set(),
{
    let ghost all = strings::strings(selected@);
    let mut out: Vec<String> = Vec::new();
    let mut k: usize = 0;
    proof {
        assert(all.take(0).to_set() =~= Set::<Seq<char>>::empty());
        assert(strings::strings(out@).to_set() =~= Set::<Seq<char>>::empty());
    }
    while k < selected.len()
        invariant
            k <= selected@.len(),
            all == strings::strings(selected@),
            strings::ascending(strings::strings(out@)),
            strings::strings(out@).to_set() == all.take(k as int).to_set(),
        decreases selected@.len() - k,
    {
        strings::insert(&mut out, selected[k].as_str());
        proof {
            let here = all.take(k + 1);
            assert(here =~= all.take(k as int).push(selected@[k as int]@));
            assert forall|s: Seq<char>| here.contains(s) implies all.take(k as int).contains(s)
                || s == selected@[k as int]@ by {
                let i = choose|i: int| 0 <= i < here.len() && here[i] == s;
                if i < k {
                    assert(all.take(k as int)[i] == s);
                }
            }
            assert forall|s: Seq<char>| all.take(k as int).contains(s) implies here.contains(s) by {
                let i = choose|i: int|
                    0 <= i < all.take(k as int).len() && all.take(k as int)[i] == s;
                assert(here[i] == s);
            }
            assert(here[k as int] == selected@[k as int]@);
            assert(here.to_set() =~= all.take(k as int).to_set().insert(selected@[k as int]@));
        }
        k = k + 1;
    }
    assert(all.take(k as int) =~= all);
    out
}

/// What instances are sorted by.
pub open spec fn sort_keys(list: Seq<Instance>) -> Seq<Seq<Seq<char>>> {
    Seq::new(list.len(), |k: int| seq![list[k].family@, list[k].name@, list[k].path@])
}

/// What two instances must not share.
pub open spec fn clash(a: Instance, b: Instance) -> bool {
    a.family@ == b.family@ && a.name@ == b.name@
}

/// The first neighbours in order that are the same instance.
pub open spec fn first_clash(order: Seq<usize>, list: Seq<Instance>, k: int) -> bool {
    &&& 0 <= k < order.len() - 1
    &&& clash(list[order[k] as int], list[order[k + 1] as int])
    &&& forall|i: int|
        0 <= i < k ==> !clash(list[(#[trigger] order[i]) as int], list[order[i + 1] as int])
}

/// The order of instances by family, name and path, and where in it the first
/// two neighbours stand that share family and name, if any do.
pub fn arrange(list: &Vec<Instance>) -> (r: (Vec<usize>, Option<usize>))
    ensures
        sorting::is_order(r.0@, sort_keys(list@), list@.len()),
        match r.1 {
            Some(k) => first_clash(r.0@, list@, k as int),
            None => forall|i: int|
                0 <= i < list@.len() - 1 ==> !clash(
                    list@[(#[trigger] r.0@[i]) as int],
                    list@[r.0@[i + 1] as int],
                ),
        },
{
    let mut keys: Vec<Vec<String>> = Vec::new();
    let mut k: usize = 0;
    while k < list.len()
        invariant
            k <= list@.len(),
            keys@.len() == k,
            forall|i: int|
                0 <= i < k ==> strings::strings((#[trigger] keys@[i])@) == sort_keys(list@)[i],
        decreases list@.len() - k,
    {
        let mut key: Vec<String> = Vec::new();
        key.push(strings::copy(list[k].family.as_str()));
        key.push(strings::copy(list[k].name.as_str()));
        key.push(strings::copy(list[k].path.as_str()));
        assert(strings::strings(key@) =~= sort_keys(list@)[k as int]);
        keys.push(key);
        k = k + 1;
    }
    assert(strings::grid(keys@) =~= sort_keys(list@));
    let order = sorting::order(&keys);
    let mut at: usize = 0;
    while order.len() > 0 && at < order.len() - 1
        invariant
            at < order@.len() || at == 0,
            sorting::is_order(order@, sort_keys(list@), list@.len()),
            forall|i: int|
                0 <= i < at ==> !clash(
                    list@[(#[trigger] order@[i]) as int],
                    list@[order@[i + 1] as int],
                ),
        decreases order@.len() - at,
    {
        let (a, b): (usize, usize) = (order[at], order[at + 1]);
        assert(order@[at as int] < list@.len() && order@[at + 1] < list@.len());
        if strings::same(list[a].family.as_str(), list[b].family.as_str()) && strings::same(
            list[a].name.as_str(),
            list[b].name.as_str(),
        ) {
            return (order, Some(at));
        }
        at = at + 1;
    }
    (order, None)
}

/// The complaint about two files of one instance.
pub fn clash_message(a: &Instance, b: &Instance) -> (r: String)
    ensures
        r@ == a.path@ + " and "@ + b.path@ + " are the same instance"@,
{
    let mut out = text::to_chars(a.path.as_str());
    text::put(&mut out, " and ");
    text::put(&mut out, b.path.as_str());
    text::put(&mut out, " are the same instance");
    text::to_text(&out)
}

} // verus!
