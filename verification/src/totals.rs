//! Corpus sums of one side of a comparison.

use crate::json::{self, Tree, Value};
use crate::strings;
use crate::sums::{self, Sums};
use crate::text;
use vstd::prelude::*;

verus! {

/// The dotted path of a leaf.
pub open spec fn leaf_path(prefix: Seq<char>, name: Seq<char>) -> Seq<char> {
    if prefix.len() == 0 {
        name
    } else {
        prefix + "."@ + name
    }
}

/// The numeric leaves under a value, each with its path. A fraction is no count.
pub open spec fn leaves(prefix: Seq<char>, t: Tree) -> Seq<(Seq<char>, int)>
    decreases t,
{
    match t {
        Tree::Object(fields) => member_leaves(prefix, fields),
        Tree::Number(Some(n), _) => seq![(prefix, n as int)],
        _ => Seq::empty(),
    }
}

pub open spec fn member_leaves(prefix: Seq<char>, fields: Seq<(Seq<char>, Tree)>) -> Seq<
    (Seq<char>, int),
>
    decreases fields,
{
    if fields.len() == 0 {
        Seq::empty()
    } else {
        member_leaves(prefix, fields.drop_last()) + leaves(
            leaf_path(prefix, fields.last().0),
            fields.last().1,
        )
    }
}

/// Add every numeric leaf under a value, keyed by dotted path.
pub fn sum_leaves(prefix: &Vec<char>, value: &Value, sums: &mut Sums)
    requires
        old(sums).wf(),
    ensures
        final(sums).wf(),
        final(sums)@ == sums::added_all(old(sums)@, leaves(prefix@, json::tree(*value))),
    decreases *value,
{
    let ghost start = sums@;
    match value {
        Value::Object(fields) => {
            let ghost all = json::members(fields@);
            proof {
                json::members_length(fields@);
                assert(all.take(0) =~= Seq::<(Seq<char>, Tree)>::empty());
            }
            let mut k: usize = 0;
            while k < fields.len()
                invariant
                    k <= fields@.len(),
                    all == json::members(fields@),
                    all.len() == fields@.len(),
                    *value == Value::Object(*fields),
                    sums.wf(),
                    sums@ == sums::added_all(start, member_leaves(prefix@, all.take(k as int))),
                decreases fields@.len() - k,
            {
                let name = fields[k].0.as_str();
                let path = if prefix.len() == 0 {
                    text::to_chars(name)
                } else {
                    let mut p = text::copy(prefix);
                    text::put(&mut p, ".");
                    text::put(&mut p, name);
                    p
                };
                assert(decreases_to!(*value => value->Object_0));
                assert(decreases_to!(*fields => fields@));
                assert(decreases_to!(fields@ => fields@[k as int]));
                assert(decreases_to!(fields@[k as int] => fields@[k as int].1));
                sum_leaves(&path, &fields[k].1, sums);
                proof {
                    json::member_at(fields@, k as int);
                    let here = all.take(k + 1);
                    assert(here.drop_last() =~= all.take(k as int));
                    assert(here.last() == all[k as int]);
                    sums::additions_append(
                        start,
                        member_leaves(prefix@, all.take(k as int)),
                        leaves(path@, here.last().1),
                    );
                }
                k = k + 1;
            }
            assert(all.take(k as int) =~= all);
        },
        Value::Number(n) => {
            match n.integer {
                Some(m) => {
                    let name = text::to_text(prefix);
                    sums.add(name.as_str(), m);
                    proof {
                        let l = leaves(prefix@, json::tree(*value));
                        assert(l =~= seq![(prefix@, m as int)]);
                        assert(l.drop_last() =~= Seq::<(Seq<char>, int)>::empty());
                        assert(sums::added_all(start, l.drop_last()) == start);
                    }
                },
                None => {},
            }
        },
        _ => {},
    }
}

/// Corpus sums of one side, over the instances that both sides share.
pub struct Totals {
    pub reductions: Sums,
    pub after: Sums,
    pub outcomes: Sums,
    pub work: Sums,
}

/// What the totals hold.
pub ghost struct Tally {
    pub reductions: Map<Seq<char>, int>,
    pub after: Map<Seq<char>, int>,
    pub outcomes: Map<Seq<char>, int>,
    pub work: Map<Seq<char>, int>,
}

pub open spec fn no_tally() -> Tally {
    Tally { reductions: Map::empty(), after: Map::empty(), outcomes: Map::empty(), work: Map::empty() }
}

/// The outcome that a record counts under.
pub open spec fn label(t: Tree) -> Seq<char> {
    match (
        json::as_text(json::field(t, "status"@)),
        json::as_text(json::field(t, "outcome"@)),
    ) {
        (Some(status), Some(outcome)) => if status == "presolved"@ {
            outcome
        } else {
            status
        },
        (Some(status), None) => status,
        _ => "unknown"@,
    }
}

/// The totals with one more record; its size counts only where `sizes` is set.
pub open spec fn tallied(tally: Tally, t: Tree, sizes: bool) -> Tally {
    Tally {
        reductions: sums::added_all(
            tally.reductions,
            leaves(Seq::empty(), json::field_or_null(t, "reductions"@)),
        ),
        after: if sizes {
            sums::added_all(
                tally.after,
                leaves(Seq::empty(), json::field_or_null(t, "after"@)),
            )
        } else {
            tally.after
        },
        outcomes: sums::added(tally.outcomes, label(t), 1),
        work: sums::added_all(tally.work, leaves(Seq::empty(), json::field_or_null(t, "work"@))),
    }
}

fn sum_field(record: &Value, name: &str, sums: &mut Sums)
    requires
        old(sums).wf(),
    ensures
        final(sums).wf(),
        final(sums)@ == sums::added_all(
            old(sums)@,
            leaves(Seq::empty(), json::field_or_null(json::tree(*record), name@)),
        ),
{
    match record.get(name) {
        Some(v) => {
            let prefix: Vec<char> = Vec::new();
            assert(prefix@ =~= Seq::<char>::empty());
            sum_leaves(&prefix, v, sums);
        },
        None => {},
    }
}

impl Totals {
    pub open spec fn wf(&self) -> bool {
        &&& self.reductions.wf()
        &&& self.after.wf()
        &&& self.outcomes.wf()
        &&& self.work.wf()
    }

    pub open spec fn view(&self) -> Tally {
        Tally {
            reductions: self.reductions@,
            after: self.after@,
            outcomes: self.outcomes@,
            work: self.work@,
        }
    }

    pub fn new() -> (r: Totals)
        ensures
            r.wf(),
            r@ == no_tally(),
    {
        Totals {
            reductions: Sums::new(),
            after: Sums::new(),
            outcomes: Sums::new(),
            work: Sums::new(),
        }
    }

    /// Count a record, and its size after presolve where `sizes` is set.
    pub fn add(&mut self, record: &Value, sizes: bool)
        requires
            old(self).wf(),
        ensures
            final(self).wf(),
            final(self)@ == tallied(old(self)@, json::tree(*record), sizes),
    {
        let status = record.text_of("status");
        let outcome = record.text_of("outcome");
        let label: String = match (status, outcome) {
            (Some(s), Some(o)) => if strings::same(s.as_str(), "presolved") {
                o
            } else {
                s
            },
            (Some(s), None) => s,
            _ => strings::copy("unknown"),
        };
        self.outcomes.add(label.as_str(), 1);
        sum_field(record, "reductions", &mut self.reductions);
        if sizes {
            sum_field(record, "after", &mut self.after);
        }
        sum_field(record, "work", &mut self.work);
    }
}

} // verus!
