//! Field-by-field comparison of two snapshots.
//!
//! A difference in any field outside `work` is a change: a different status,
//! outcome, size, or reduction count. Differences under `work` are
//! informational. Reduction counts are stored only when nonzero, so a count
//! missing on one side is zero. Any other field present on only one side is
//! schema drift between the two snapshots and is reported, not compared.

use crate::json::{self, Number, Tree, Value};
use crate::strings;
use crate::sums::{self, Sums};
use crate::text;
use crate::totals::{self, Tally, Totals};
use vstd::prelude::*;

verus! {

/// Records by instance, in the order of the instances.
pub type Snapshot = Vec<(String, Value)>;

/// One differing leaf of one instance, as a dotted path.
pub struct Delta {
    pub instance: String,
    pub path: String,
    pub base: Value,
    pub head: Value,
}

/// What a delta says.
pub ghost struct Change {
    pub instance: Seq<char>,
    pub path: Seq<char>,
    pub base: Tree,
    pub head: Tree,
}

/// Whether a path leads to a work counter.
pub open spec fn under_work(path: Seq<char>) -> bool {
    "work."@.is_prefix_of(path)
}

impl Delta {
    pub open spec fn view(&self) -> Change {
        Change {
            instance: self.instance@,
            path: self.path@,
            base: json::tree(self.base),
            head: json::tree(self.head),
        }
    }

    pub fn is_work(&self) -> (r: bool)
        ensures
            r == under_work(self.path@),
    {
        let path = text::to_chars(self.path.as_str());
        let prefix = text::to_chars("work.");
        if path.len() < prefix.len() {
            return false;
        }
        let part = text::slice(&path, 0, prefix.len());
        proof {
            reveal_strlit("work.");
            assert(prefix@.is_prefix_of(path@) == (prefix@ =~= path@.subrange(
                0,
                prefix@.len() as int,
            )));
        }
        text::same(&prefix, &part)
    }
}

pub open spec fn changes(list: Seq<Delta>) -> Seq<Change> {
    Seq::new(list.len(), |k: int| list[k]@)
}

/// What a comparison of two records finds, in the order of the fields.
pub ghost struct Diff {
    pub deltas: Seq<Change>,
    pub base_only: Seq<Seq<char>>,
    pub head_only: Seq<Seq<char>>,
}

pub open spec fn nothing() -> Diff {
    Diff { deltas: Seq::empty(), base_only: Seq::empty(), head_only: Seq::empty() }
}

pub open spec fn and(first: Diff, second: Diff) -> Diff {
    Diff {
        deltas: first.deltas + second.deltas,
        base_only: first.base_only + second.base_only,
        head_only: first.head_only + second.head_only,
    }
}

pub proof fn and_is_associative(a: Diff, b: Diff, c: Diff)
    ensures
        and(and(a, b), c) == and(a, and(b, c)),
        and(a, nothing()) == a,
        and(nothing(), a) == a,
{
    assert(and(and(a, b), c).deltas =~= and(a, and(b, c)).deltas);
    assert(and(and(a, b), c).base_only =~= and(a, and(b, c)).base_only);
    assert(and(and(a, b), c).head_only =~= and(a, and(b, c)).head_only);
    assert(and(a, nothing()).deltas =~= a.deltas);
    assert(and(a, nothing()).base_only =~= a.base_only);
    assert(and(a, nothing()).head_only =~= a.head_only);
    assert(and(nothing(), a).deltas =~= a.deltas);
    assert(and(nothing(), a).base_only =~= a.base_only);
    assert(and(nothing(), a).head_only =~= a.head_only);
}

pub open spec fn differing(instance: Seq<char>, path: Seq<char>, base: Tree, head: Tree) -> Diff {
    Diff {
        deltas: seq![Change { instance, path, base, head }],
        base_only: Seq::empty(),
        head_only: Seq::empty(),
    }
}

pub open spec fn zero_count() -> Tree {
    Tree::Number(Some(0), "0"@)
}

/// A count that is null counts as zero.
pub open spec fn filled(t: Tree) -> Tree {
    if t is Null {
        zero_count()
    } else {
        t
    }
}

/// The path of a member.
pub open spec fn member_path(path: Seq<char>, top: bool, name: Seq<char>) -> Seq<char> {
    if top {
        name
    } else {
        path + "."@ + name
    }
}

pub open spec fn weight_of(t: Option<Tree>) -> nat {
    match t {
        Some(t) => json::weight(t),
        None => 0,
    }
}

/// The differences between two values at a path. A missing value is a zero
/// count where `counts` is set, and schema drift elsewhere.
pub open spec fn diff(
    instance: Seq<char>,
    path: Seq<char>,
    top: bool,
    base: Option<Tree>,
    head: Option<Tree>,
    counts: bool,
) -> Diff
    decreases weight_of(base) + weight_of(head),
{
    match (base, head) {
        (Some(Tree::Object(b)), Some(Tree::Object(h))) => diff_members(
            instance,
            path,
            top,
            b,
            h,
            counts,
        ),
        (Some(b), Some(h)) => if json::alike(b, h) {
            nothing()
        } else {
            differing(instance, path, b, h)
        },
        (None, Some(v)) => if !counts {
            Diff { head_only: seq![path], ..nothing() }
        } else {
            match v {
                Tree::Object(h) => diff_members(instance, path, top, Seq::empty(), h, true),
                _ => differing(instance, path, zero_count(), filled(v)),
            }
        },
        (Some(v), None) => if !counts {
            Diff { base_only: seq![path], ..nothing() }
        } else {
            match v {
                Tree::Object(b) => diff_members(instance, path, top, b, Seq::empty(), true),
                _ => differing(instance, path, filled(v), zero_count()),
            }
        },
        (None, None) => nothing(),
    }
}

/// The differences between two lists of members, by name.
pub open spec fn diff_members(
    instance: Seq<char>,
    path: Seq<char>,
    top: bool,
    base: Seq<(Seq<char>, Tree)>,
    head: Seq<(Seq<char>, Tree)>,
    counts: bool,
) -> Diff
    decreases json::member_weights(base) + json::member_weights(head),
{
    if base.len() == 0 && head.len() == 0 {
        nothing()
    } else {
        proof {
            if base.len() > 0 {
                json::member_is_lighter(base, 0);
                assert(base.skip(0) =~= base);
            }
            if head.len() > 0 {
                json::member_is_lighter(head, 0);
                assert(head.skip(0) =~= head);
            }
        }
        let in_base = head.len() == 0 || base.len() > 0 && !strings::precedes(
            head[0].0,
            base[0].0,
        );
        let in_head = base.len() == 0 || head.len() > 0 && !strings::precedes(
            base[0].0,
            head[0].0,
        );
        let name = if in_base {
            base[0].0
        } else {
            head[0].0
        };
        let here = diff(
            instance,
            member_path(path, top, name),
            false,
            if in_base {
                Some(base[0].1)
            } else {
                None
            },
            if in_head {
                Some(head[0].1)
            } else {
                None
            },
            counts || (top && name == "reductions"@),
        );
        let rest = if in_base && in_head {
            diff_members(instance, path, top, base.skip(1), head.skip(1), counts)
        } else if in_base {
            diff_members(instance, path, top, base.skip(1), head, counts)
        } else {
            diff_members(instance, path, top, base, head.skip(1), counts)
        };
        and(here, rest)
    }
}

/// A value does not differ from itself.
pub proof fn equal_values_do_not_differ(
    instance: Seq<char>,
    path: Seq<char>,
    top: bool,
    t: Tree,
    counts: bool,
)
    ensures
        diff(instance, path, top, Some(t), Some(t), counts) == nothing(),
    decreases json::weight(t),
{
    json::values_agree_with_themselves(t);
    if let Tree::Object(fields) = t {
        equal_members_do_not_differ(instance, path, top, fields, counts);
    }
}

proof fn equal_members_do_not_differ(
    instance: Seq<char>,
    path: Seq<char>,
    top: bool,
    fields: Seq<(Seq<char>, Tree)>,
    counts: bool,
)
    ensures
        diff_members(instance, path, top, fields, fields, counts) == nothing(),
    decreases json::member_weights(fields),
{
    if fields.len() > 0 {
        json::member_is_lighter(fields, 0);
        assert(fields.skip(0) =~= fields);
        let (name, t) = fields[0];
        strings::order_is_strict(name);
        equal_values_do_not_differ(
            instance,
            member_path(path, top, name),
            false,
            t,
            counts || (top && name == "reductions"@),
        );
        equal_members_do_not_differ(instance, path, top, fields.skip(1), counts);
        and_is_associative(nothing(), nothing(), nothing());
    }
}

/// Differences as they are found.
pub struct Found {
    pub deltas: Vec<Delta>,
    pub base_only: Vec<String>,
    pub head_only: Vec<String>,
}

impl Found {
    pub open spec fn view(&self) -> Diff {
        Diff {
            deltas: changes(self.deltas@),
            base_only: strings::strings(self.base_only@),
            head_only: strings::strings(self.head_only@),
        }
    }

    pub fn push(&mut self, instance: &str, path: &Vec<char>, base: Value, head: Value)
        ensures
            final(self)@ == and(
                old(self)@,
                differing(instance@, path@, json::tree(base), json::tree(head)),
            ),
    {
        let ghost start = self@;
        let ghost what = differing(instance@, path@, json::tree(base), json::tree(head));
        self.deltas.push(
            Delta { instance: strings::copy(instance), path: text::to_text(path), base, head },
        );
        assert(self@.deltas =~= and(start, what).deltas);
        assert(self@.base_only =~= and(start, what).base_only);
        assert(self@.head_only =~= and(start, what).head_only);
    }
}

fn zero_value() -> (r: Value)
    ensures
        json::tree(r) == zero_count(),
{
    Value::Number(Number { integer: Some(0), text: strings::copy("0") })
}

fn fill(v: &Value) -> (r: Value)
    ensures
        json::tree(r) == filled(json::tree(*v)),
{
    match v {
        Value::Null => zero_value(),
        _ => v.copy(),
    }
}

fn extend(path: &Vec<char>, top: bool, name: &str) -> (r: Vec<char>)
    ensures
        r@ == member_path(path@, top, name@),
{
    if top {
        text::to_chars(name)
    } else {
        let mut r = text::copy(path);
        text::put(&mut r, ".");
        text::put(&mut r, name);
        r
    }
}

/// The views of a pair of optional values.
pub open spec fn tree_of(value: Option<&Value>) -> Option<Tree> {
    match value {
        Some(v) => Some(json::tree(*v)),
        None => None,
    }
}

/// Collect the differences between two values.
pub fn collect(
    found: &mut Found,
    instance: &str,
    path: &Vec<char>,
    top: bool,
    base: Option<&Value>,
    head: Option<&Value>,
    counts: bool,
)
    ensures
        final(found)@ == and(
            old(found)@,
            diff(instance@, path@, top, tree_of(base), tree_of(head), counts),
        ),
    decreases weight_of(tree_of(base)) + weight_of(tree_of(head)), 1nat,
{
    let ghost start = found@;
    proof {
        and_is_associative(start, nothing(), nothing());
    }
    match (base, head) {
        (Some(b), Some(h)) => {
            match (b, h) {
                (Value::Object(bf), Value::Object(hf)) => {
                    collect_members(found, instance, path, top, bf, hf, counts);
                },
                _ => {
                    if !b.same(h) {
                        found.push(instance, path, b.copy(), h.copy());
                    }
                },
            }
        },
        (None, Some(v)) => {
            if !counts {
                found.head_only.push(text::to_text(path));
                proof {
                    let what = Diff { head_only: seq![path@], ..nothing() };
                    assert(found@.deltas =~= and(start, what).deltas);
                    assert(found@.base_only =~= and(start, what).base_only);
                    assert(found@.head_only =~= and(start, what).head_only);
                }
            } else {
                match v {
                    Value::Object(hf) => {
                        let none: Vec<(String, Value)> = Vec::new();
                        assert(json::members(none@) =~= Seq::<(Seq<char>, Tree)>::empty());
                        collect_members(found, instance, path, top, &none, hf, true);
                    },
                    _ => {
                        found.push(instance, path, zero_value(), fill(v));
                    },
                }
            }
        },
        (Some(v), None) => {
            if !counts {
                found.base_only.push(text::to_text(path));
                proof {
                    let what = Diff { base_only: seq![path@], ..nothing() };
                    assert(found@.deltas =~= and(start, what).deltas);
                    assert(found@.base_only =~= and(start, what).base_only);
                    assert(found@.head_only =~= and(start, what).head_only);
                }
            } else {
                match v {
                    Value::Object(bf) => {
                        let none: Vec<(String, Value)> = Vec::new();
                        assert(json::members(none@) =~= Seq::<(Seq<char>, Tree)>::empty());
                        collect_members(found, instance, path, top, bf, &none, true);
                    },
                    _ => {
                        found.push(instance, path, fill(v), zero_value());
                    },
                }
            }
        },
        (None, None) => {},
    }
}

fn collect_members(
    found: &mut Found,
    instance: &str,
    path: &Vec<char>,
    top: bool,
    base: &Vec<(String, Value)>,
    head: &Vec<(String, Value)>,
    counts: bool,
)
    ensures
        final(found)@ == and(
            old(found)@,
            diff_members(
                instance@,
                path@,
                top,
                json::members(base@),
                json::members(head@),
                counts,
            ),
        ),
    decreases json::member_weights(json::members(base@)) + json::member_weights(json::members(head@)), 2nat,
{
    let ghost start = found@;
    let ghost b = json::members(base@);
    let ghost h = json::members(head@);
    let ghost goal = and(start, diff_members(instance@, path@, top, b, h, counts));
    proof {
        json::members_length(base@);
        json::members_length(head@);
        assert(b.skip(0) =~= b);
        assert(h.skip(0) =~= h);
    }
    let mut i: usize = 0;
    let mut j: usize = 0;
    while i < base.len() || j < head.len()
        invariant
            i <= base@.len(),
            j <= head@.len(),
            b == json::members(base@),
            h == json::members(head@),
            b.len() == base@.len(),
            h.len() == head@.len(),
            goal == and(
                found@,
                diff_members(instance@, path@, top, b.skip(i as int), h.skip(j as int), counts),
            ),
        decreases base@.len() - i + head@.len() - j,
    {
        let ghost now = found@;
        let ghost bs = b.skip(i as int);
        let ghost hs = h.skip(j as int);
        proof {
            if i < base@.len() {
                json::member_at(base@, i as int);
                json::member_is_lighter(b, i as int);
                assert(bs[0] == b[i as int]);
                assert(bs.skip(1) =~= b.skip(i + 1));
            }
            if j < head@.len() {
                json::member_at(head@, j as int);
                json::member_is_lighter(h, j as int);
                assert(hs[0] == h[j as int]);
                assert(hs.skip(1) =~= h.skip(j + 1));
            }
        }
        let in_base = j >= head.len() || (i < base.len() && !strings::before(
            head[j].0.as_str(),
            base[i].0.as_str(),
        ));
        let in_head = i >= base.len() || (j < head.len() && !strings::before(
            base[i].0.as_str(),
            head[j].0.as_str(),
        ));
        let name: &str = if in_base {
            base[i].0.as_str()
        } else {
            head[j].0.as_str()
        };
        let inner = extend(path, top, name);
        let zero = counts || (top && strings::same(name, "reductions"));
        let bv: Option<&Value> = if in_base {
            Some(&base[i].1)
        } else {
            None
        };
        let hv: Option<&Value> = if in_head {
            Some(&head[j].1)
        } else {
            None
        };
        proof {
            strings::order_is_total(
                if i < base@.len() {
                    b[i as int].0
                } else {
                    Seq::empty()
                },
                if j < head@.len() {
                    h[j as int].0
                } else {
                    Seq::empty()
                },
            );
            assert(in_base || in_head);
        }
        collect(found, instance, &inner, false, bv, hv, zero);
        if in_base {
            i = i + 1;
        }
        if in_head {
            j = j + 1;
        }
        proof {
            let here = diff(instance@, inner@, false, tree_of(bv), tree_of(hv), zero);
            let rest = diff_members(
                instance@,
                path@,
                top,
                b.skip(i as int),
                h.skip(j as int),
                counts,
            );
            assert(diff_members(instance@, path@, top, bs, hs, counts) == and(here, rest));
            and_is_associative(now, here, rest);
        }
    }
    proof {
        and_is_associative(found@, nothing(), nothing());
    }
}

/// Each name once.
pub open spec fn ones(list: Seq<Seq<char>>) -> Seq<(Seq<char>, int)> {
    Seq::new(list.len(), |k: int| (list[k], 1int))
}

/// The status of a record, with its message or its outcome.
pub open spec fn summary(t: Tree) -> Tree {
    match (
        json::as_text(json::field(t, "status"@)),
        json::as_text(json::field(t, "message"@)),
        json::as_text(json::field(t, "outcome"@)),
    ) {
        (Some(status), Some(message), _) => Tree::Text(status + ": "@ + message),
        (Some(status), None, Some(outcome)) => Tree::Text(status + ": "@ + outcome),
        _ => json::field_or_null(t, "status"@),
    }
}

pub fn status_summary(record: &Value) -> (r: Value)
    ensures
        json::tree(r) == summary(json::tree(*record)),
{
    let status = record.text_of("status");
    let message = record.text_of("message");
    let outcome = record.text_of("outcome");
    let detail: Option<String> = match message {
        Some(m) => Some(m),
        None => outcome,
    };
    match (status, detail) {
        (Some(s), Some(d)) => {
            let mut out = text::to_chars(s.as_str());
            text::put(&mut out, ": ");
            text::put(&mut out, d.as_str());
            Value::Text(text::to_text(&out))
        },
        _ => match record.get("status") {
            Some(v) => v.copy(),
            None => Value::Null,
        },
    }
}

/// What a comparison finds over the instances that both sides share.
pub ghost struct Findings {
    pub instances: nat,
    pub deltas: Seq<Change>,
    pub base_fields: Map<Seq<char>, int>,
    pub head_fields: Map<Seq<char>, int>,
    pub time_limited: Seq<Seq<char>>,
    pub base: Tally,
    pub head: Tally,
}

/// What the comparison of one instance finds. A different status is a single
/// delta; records with one status are compared field by field.
pub open spec fn instance_diff(name: Seq<char>, base: Tree, head: Tree) -> Diff {
    if !statuses_agree(base, head) {
        differing(name, "status"@, summary(base), summary(head))
    } else {
        diff(name, Seq::empty(), true, Some(base), Some(head), false)
    }
}

/// Whether a record reached the time limit.
pub open spec fn limited(t: Tree) -> bool {
    json::field_or_null(t, "time_limit_reached"@) == Tree::Bool(true)
}

pub open spec fn sized(base: Tree, head: Tree) -> bool {
    json::field_or_null(base, "after"@) is Object && json::field_or_null(head, "after"@) is Object
}

/// The findings of instances in the order of the base snapshot.
pub open spec fn findings(
    base: Seq<(Seq<char>, Tree)>,
    head: Seq<(Seq<char>, Tree)>,
) -> Findings
    decreases base.len(),
{
    if base.len() == 0 {
        Findings {
            instances: 0,
            deltas: Seq::empty(),
            base_fields: Map::empty(),
            head_fields: Map::empty(),
            time_limited: Seq::empty(),
            base: totals::no_tally(),
            head: totals::no_tally(),
        }
    } else {
        let before = findings(base.drop_last(), head);
        let (name, b) = base.last();
        match json::find(head, name) {
            None => before,
            Some(h) => {
                let d = instance_diff(name, b, h);
                Findings {
                    instances: before.instances + 1,
                    deltas: before.deltas + d.deltas,
                    base_fields: sums::added_all(before.base_fields, ones(d.base_only)),
                    head_fields: sums::added_all(before.head_fields, ones(d.head_only)),
                    time_limited: if limited(b) || limited(h) {
                        before.time_limited.push(name)
                    } else {
                        before.time_limited
                    },
                    base: totals::tallied(before.base, b, sized(b, h)),
                    head: totals::tallied(before.head, h, sized(b, h)),
                }
            },
        }
    }
}

/// The instances of one snapshot that the other lacks.
pub open spec fn missing(
    here: Seq<(Seq<char>, Tree)>,
    there: Seq<(Seq<char>, Tree)>,
) -> Seq<Seq<char>>
    decreases here.len(),
{
    if here.len() == 0 {
        Seq::empty()
    } else {
        let before = missing(here.drop_last(), there);
        if json::find(there, here.last().0) is None {
            before.push(here.last().0)
        } else {
            before
        }
    }
}

/// Two snapshots, compared.
pub struct Comparison {
    pub instances: usize,
    pub only_base: Vec<String>,
    pub only_head: Vec<String>,
    pub deltas: Vec<Delta>,
    /// Field path to the number of instances where only one side has it.
    pub fields_only_base: Sums,
    pub fields_only_head: Sums,
    /// Instances whose record on either side reached the time limit.
    pub time_limited: Vec<String>,
    pub base: Totals,
    pub head: Totals,
}

fn lookup<'a>(snapshot: &'a Snapshot, name: &str) -> (r: Option<&'a Value>)
    ensures
        tree_of(r) == json::find(json::members(snapshot@), name@),
{
    let ghost all = json::members(snapshot@);
    proof {
        json::members_length(snapshot@);
        assert(all.skip(0) =~= all);
    }
    let mut k: usize = 0;
    while k < snapshot.len()
        invariant
            k <= snapshot@.len(),
            all == json::members(snapshot@),
            all.len() == snapshot@.len(),
            json::find(all, name@) == json::find(all.skip(k as int), name@),
        decreases snapshot@.len() - k,
    {
        proof {
            json::member_at(snapshot@, k as int);
            assert(all.skip(k as int)[0] == all[k as int]);
            assert(all.skip(k as int).skip(1) =~= all.skip(k + 1));
        }
        if strings::same(snapshot[k].0.as_str(), name) {
            return Some(&snapshot[k].1);
        }
        k = k + 1;
    }
    None
}

fn absent(here: &Snapshot, there: &Snapshot) -> (out: Vec<String>)
    ensures
        strings::strings(out@) == missing(json::members(here@), json::members(there@)),
{
    let ghost all = json::members(here@);
    proof {
        json::members_length(here@);
        assert(all.take(0) =~= Seq::<(Seq<char>, Tree)>::empty());
    }
    let mut out: Vec<String> = Vec::new();
    let mut k: usize = 0;
    assert(strings::strings(out@) =~= Seq::<Seq<char>>::empty());
    while k < here.len()
        invariant
            k <= here@.len(),
            all == json::members(here@),
            all.len() == here@.len(),
            strings::strings(out@) == missing(all.take(k as int), json::members(there@)),
        decreases here@.len() - k,
    {
        proof {
            json::member_at(here@, k as int);
            assert(all.take(k + 1).drop_last() =~= all.take(k as int));
            assert(all.take(k + 1).last() == all[k as int]);
        }
        if lookup(there, here[k].0.as_str()).is_none() {
            let ghost earlier = strings::strings(out@);
            out.push(strings::copy(here[k].0.as_str()));
            assert(strings::strings(out@) =~= earlier.push(here@[k as int].0@));
        }
        k = k + 1;
    }
    assert(all.take(k as int) =~= all);
    out
}

fn count_all(counts: &mut Sums, names: &Vec<String>)
    requires
        old(counts).wf(),
    ensures
        final(counts).wf(),
        final(counts)@ == sums::added_all(old(counts)@, ones(strings::strings(names@))),
{
    let ghost start = counts@;
    let ghost all = ones(strings::strings(names@));
    let mut k: usize = 0;
    assert(all.take(0) =~= Seq::<(Seq<char>, int)>::empty());
    while k < names.len()
        invariant
            k <= names@.len(),
            all == ones(strings::strings(names@)),
            counts.wf(),
            counts@ == sums::added_all(start, all.take(k as int)),
        decreases names@.len() - k,
    {
        counts.add(names[k].as_str(), 1);
        k = k + 1;
        assert(all.take(k as int).drop_last() =~= all.take(k - 1));
        assert(all.take(k as int).last() == (names@[k - 1]@, 1int));
    }
    assert(all.take(k as int) =~= all);
}

fn is_limited(record: &Value) -> (r: bool)
    ensures
        r == limited(json::tree(*record)),
{
    match record.get("time_limit_reached") {
        Some(v) => match v {
            Value::Bool(b) => *b,
            _ => false,
        },
        None => false,
    }
}

fn has_size(record: &Value) -> (r: bool)
    ensures
        r == (json::field_or_null(json::tree(*record), "after"@) is Object),
{
    match record.get("after") {
        Some(v) => v.is_object(),
        None => false,
    }
}

/// Two records have the same status, or neither has one.
pub open spec fn statuses_agree(base: Tree, head: Tree) -> bool {
    match (json::field(base, "status"@), json::field(head, "status"@)) {
        (Some(a), Some(b)) => json::alike(a, b),
        (None, None) => true,
        _ => false,
    }
}

fn same_status(base: &Value, head: &Value) -> (r: bool)
    ensures
        r == statuses_agree(json::tree(*base), json::tree(*head)),
{
    match (base.get("status"), head.get("status")) {
        (Some(a), Some(b)) => a.same(b),
        (None, None) => true,
        _ => false,
    }
}

impl Comparison {
    pub open spec fn wf(&self) -> bool {
        &&& self.fields_only_base.wf()
        &&& self.fields_only_head.wf()
        &&& self.base.wf()
        &&& self.head.wf()
    }

    pub open spec fn view(&self) -> Findings {
        Findings {
            instances: self.instances as nat,
            deltas: changes(self.deltas@),
            base_fields: self.fields_only_base@,
            head_fields: self.fields_only_head@,
            time_limited: strings::strings(self.time_limited@),
            base: self.base@,
            head: self.head@,
        }
    }

    /// Compare one instance that both sides have.
    fn compare(&mut self, name: &str, b: &Value, h: &Value)
        requires
            old(self).wf(),
            old(self).instances < usize::MAX,
        ensures
            final(self).wf(),
            final(self).only_base == old(self).only_base,
            final(self).only_head == old(self).only_head,
            ({
                let (before, after) = (old(self)@, final(self)@);
                let (bt, ht) = (json::tree(*b), json::tree(*h));
                let d = instance_diff(name@, bt, ht);
                after == (Findings {
                    instances: before.instances + 1,
                    deltas: before.deltas + d.deltas,
                    base_fields: sums::added_all(before.base_fields, ones(d.base_only)),
                    head_fields: sums::added_all(before.head_fields, ones(d.head_only)),
                    time_limited: if limited(bt) || limited(ht) {
                        before.time_limited.push(name@)
                    } else {
                        before.time_limited
                    },
                    base: totals::tallied(before.base, bt, sized(bt, ht)),
                    head: totals::tallied(before.head, ht, sized(bt, ht)),
                })
            }),
    {
        let ghost start = *self;
        self.instances = self.instances + 1;
        if is_limited(b) || is_limited(h) {
            self.time_limited.push(strings::copy(name));
            assert(strings::strings(self.time_limited@) =~= start@.time_limited.push(name@));
        }
        let sizes = has_size(b) && has_size(h);
        self.base.add(b, sizes);
        self.head.add(h, sizes);
        let mut found = Found { deltas: Vec::new(), base_only: Vec::new(), head_only: Vec::new() };
        proof {
            assert(found@.deltas =~= nothing().deltas);
            assert(found@.base_only =~= nothing().base_only);
            assert(found@.head_only =~= nothing().head_only);
        }
        let ghost d = instance_diff(name@, json::tree(*b), json::tree(*h));
        let ghost none = found@;
        if !same_status(b, h) {
            let path = text::to_chars("status");
            found.push(name, &path, status_summary(b), status_summary(h));
        } else {
            let path: Vec<char> = Vec::new();
            assert(path@ =~= Seq::<char>::empty());
            collect(&mut found, name, &path, true, Some(b), Some(h), false);
        }
        proof {
            and_is_associative(d, nothing(), nothing());
            assert(found@ == d);
        }
        count_all(&mut self.fields_only_base, &found.base_only);
        count_all(&mut self.fields_only_head, &found.head_only);
        let ghost fresh = found.deltas@;
        self.deltas.append(&mut found.deltas);
        assert(changes(self.deltas@) =~= start@.deltas + changes(fresh));
    }

    /// Compare two snapshots, instance by instance.
    pub fn new(base: &Snapshot, head: &Snapshot) -> (c: Comparison)
        ensures
            c.wf(),
            strings::strings(c.only_base@) == missing(
                json::members(base@),
                json::members(head@),
            ),
            strings::strings(c.only_head@) == missing(
                json::members(head@),
                json::members(base@),
            ),
            c@ == findings(json::members(base@), json::members(head@)),
    {
        let ghost b = json::members(base@);
        let ghost h = json::members(head@);
        let mut c = Comparison {
            instances: 0,
            only_base: absent(base, head),
            only_head: absent(head, base),
            deltas: Vec::new(),
            fields_only_base: Sums::new(),
            fields_only_head: Sums::new(),
            time_limited: Vec::new(),
            base: Totals::new(),
            head: Totals::new(),
        };
        let ghost start = c;
        proof {
            json::members_length(base@);
            assert(b.take(0) =~= Seq::<(Seq<char>, Tree)>::empty());
            assert(c@.deltas =~= Seq::<Change>::empty());
            assert(c@.time_limited =~= Seq::<Seq<char>>::empty());
        }
        let mut k: usize = 0;
        while k < base.len()
            invariant
                k <= base@.len(),
                b == json::members(base@),
                h == json::members(head@),
                b.len() == base@.len(),
                c.wf(),
                c.only_base == start.only_base,
                c.only_head == start.only_head,
                c.instances <= k,
                c@ == findings(b.take(k as int), h),
            decreases base@.len() - k,
        {
            proof {
                json::member_at(base@, k as int);
                assert(b.take(k + 1).drop_last() =~= b.take(k as int));
                assert(b.take(k + 1).last() == b[k as int]);
            }
            match lookup(head, base[k].0.as_str()) {
                Some(v) => {
                    c.compare(base[k].0.as_str(), &base[k].1, v);
                },
                None => {},
            }
            k = k + 1;
        }
        assert(b.take(k as int) =~= b);
        c
    }

    /// Instances whose status, outcome, size, or reductions differ, in order.
    pub fn changed_instances(&self) -> (out: Vec<String>)
        ensures
            strings::ascending(strings::strings(out@)),
            strings::strings(out@).to_set() == changed(changes(self.deltas@)),
    {
        let ghost all = changes(self.deltas@);
        let mut out: Vec<String> = Vec::new();
        let mut k: usize = 0;
        proof {
            assert(all.take(0) =~= Seq::<Change>::empty());
            assert(strings::strings(out@).to_set() =~= Set::<Seq<char>>::empty());
        }
        while k < self.deltas.len()
            invariant
                k <= self.deltas@.len(),
                all == changes(self.deltas@),
                strings::ascending(strings::strings(out@)),
                strings::strings(out@).to_set() == changed(all.take(k as int)),
            decreases self.deltas@.len() - k,
        {
            proof {
                assert(all.take(k + 1).drop_last() =~= all.take(k as int));
                assert(all.take(k + 1).last() == self.deltas@[k as int]@);
            }
            if !self.deltas[k].is_work() {
                strings::insert(&mut out, self.deltas[k].instance.as_str());
            }
            k = k + 1;
        }
        assert(all.take(k as int) =~= all);
        out
    }

    /// Whether the two snapshots differ outside the work counters.
    pub fn has_changes(&self) -> (r: bool)
        ensures
            r == differs(
                strings::strings(self.only_base@),
                strings::strings(self.only_head@),
                changes(self.deltas@),
            ),
    {
        if self.only_base.len() > 0 || self.only_head.len() > 0 {
            return true;
        }
        let names = self.changed_instances();
        proof {
            let list = strings::strings(names@);
            if names@.len() > 0 {
                assert(list.contains(list[0]));
                assert(list.to_set().contains(list[0]));
            } else {
                assert(list.to_set() =~= Set::<Seq<char>>::empty());
            }
        }
        names.len() > 0
    }
}

/// The instances with a delta outside the work counters.
pub open spec fn changed(deltas: Seq<Change>) -> Set<Seq<char>>
    decreases deltas.len(),
{
    if deltas.len() == 0 {
        Set::empty()
    } else {
        let before = changed(deltas.drop_last());
        if under_work(deltas.last().path) {
            before
        } else {
            before.insert(deltas.last().instance)
        }
    }
}

/// Whether two snapshots differ outside the work counters.
pub open spec fn differs(
    only_base: Seq<Seq<char>>,
    only_head: Seq<Seq<char>>,
    deltas: Seq<Change>,
) -> bool {
    only_base.len() > 0 || only_head.len() > 0 || changed(deltas) != Set::<Seq<char>>::empty()
}

/// A name at some place of a list can be found.
proof fn present(list: Seq<(Seq<char>, Tree)>, k: int)
    requires
        0 <= k < list.len(),
    ensures
        json::find(list, list[k].0) is Some,
    decreases k,
{
    if list[0].0 != list[k].0 {
        assert(list.skip(1)[k - 1] == list[k]);
        present(list.skip(1), k - 1);
    }
}

/// With distinct names, the value found is the value that stands there.
proof fn found_in_place(list: Seq<(Seq<char>, Tree)>, k: int)
    requires
        0 <= k < list.len(),
        forall|i: int, j: int| 0 <= i < j < list.len() ==> (#[trigger] list[i]).0 != (#[trigger] list[j]).0,
    ensures
        json::find(list, list[k].0) == Some(list[k].1),
    decreases k,
{
    if k > 0 {
        assert(list[0].0 != list[k].0);
        let rest = list.skip(1);
        assert(rest[k - 1] == list[k]);
        assert forall|i: int, j: int| 0 <= i < j < rest.len() implies (#[trigger] rest[i]).0
            != (#[trigger] rest[j]).0 by {
            assert(rest[i] == list[i + 1] && rest[j] == list[j + 1]);
        }
        found_in_place(rest, k - 1);
    }
}

proof fn nothing_is_missing(part: Seq<(Seq<char>, Tree)>, list: Seq<(Seq<char>, Tree)>)
    requires
        part.len() <= list.len(),
        part == list.take(part.len() as int),
    ensures
        missing(part, list).len() == 0,
    decreases part.len(),
{
    if part.len() > 0 {
        let k = part.len() - 1;
        assert(part.drop_last() =~= list.take(k));
        nothing_is_missing(part.drop_last(), list);
        assert(part.last() == list[k]);
        present(list, k);
    }
}

proof fn no_deltas(part: Seq<(Seq<char>, Tree)>, list: Seq<(Seq<char>, Tree)>)
    requires
        part.len() <= list.len(),
        part == list.take(part.len() as int),
        forall|i: int, j: int| 0 <= i < j < list.len() ==> (#[trigger] list[i]).0 != (#[trigger] list[j]).0,
    ensures
        findings(part, list).deltas.len() == 0,
        findings(part, list).base_fields == Map::<Seq<char>, int>::empty(),
        findings(part, list).head_fields == Map::<Seq<char>, int>::empty(),
    decreases part.len(),
{
    if part.len() > 0 {
        let k = part.len() - 1;
        assert(part.drop_last() =~= list.take(k));
        no_deltas(part.drop_last(), list);
        assert(part.last() == list[k]);
        found_in_place(list, k);
        equal_values_do_not_differ(list[k].0, Seq::empty(), true, list[k].1, false);
        if let Some(status) = json::field(list[k].1, "status"@) {
            json::values_agree_with_themselves(status);
        }
        assert(ones(Seq::empty()) =~= Seq::<(Seq<char>, int)>::empty());
    }
}

/// A snapshot compared with itself shows no deltas, no missing instances, no
/// fields on one side only, and no changes.
pub proof fn identical_snapshots_have_no_changes(snapshot: Seq<(Seq<char>, Tree)>)
    requires
        forall|i: int, j: int|
            0 <= i < j < snapshot.len() ==> (#[trigger] snapshot[i]).0 != (#[trigger] snapshot[j]).0,
    ensures
        missing(snapshot, snapshot).len() == 0,
        findings(snapshot, snapshot).deltas.len() == 0,
        findings(snapshot, snapshot).base_fields == Map::<Seq<char>, int>::empty(),
        findings(snapshot, snapshot).head_fields == Map::<Seq<char>, int>::empty(),
        !differs(
            missing(snapshot, snapshot),
            missing(snapshot, snapshot),
            findings(snapshot, snapshot).deltas,
        ),
{
    assert(snapshot =~= snapshot.take(snapshot.len() as int));
    nothing_is_missing(snapshot, snapshot);
    no_deltas(snapshot, snapshot);
}

/// A count that one side lacks is reported as a change from or to zero.
pub proof fn missing_counts_are_zero(instance: Seq<char>, path: Seq<char>, count: Tree)
    requires
        count is Number,
    ensures
        diff(instance, path, false, None, Some(count), true) == differing(
            instance,
            path,
            zero_count(),
            count,
        ),
        diff(instance, path, false, Some(count), None, true) == differing(
            instance,
            path,
            count,
            zero_count(),
        ),
{
}

/// Differences under the work counters alone are no changes.
pub proof fn work_differences_are_informational(deltas: Seq<Change>)
    requires
        forall|k: int| 0 <= k < deltas.len() ==> under_work((#[trigger] deltas[k]).path),
    ensures
        !differs(Seq::empty(), Seq::empty(), deltas),
    decreases deltas.len(),
{
    if deltas.len() > 0 {
        let before = deltas.drop_last();
        assert forall|k: int| 0 <= k < before.len() implies under_work(
            (#[trigger] before[k]).path,
        ) by {
            assert(before[k] == deltas[k]);
        }
        work_differences_are_informational(before);
        assert(deltas.last() == deltas[deltas.len() - 1]);
    }
}

} // verus!
