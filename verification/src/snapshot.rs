//! Deterministic presolve records, one per instance.
//!
//! Records hold only what is a function of the input and settings when the
//! time limit is not reached: outcome, sizes, reductions by rule and kind,
//! and work counters. Timings are left out.

use crate::compare::Snapshot;
use crate::json::{self, Tree, Value};
use crate::result::{self, ReductionKind, Reductions, RuleId, Stats, KINDS, RULES};
use crate::sorting;
use crate::strings;
use crate::text;
use vstd::prelude::*;

verus! {

pub struct Record {
    /// `family/name`.
    pub instance: String,
    pub run: Run,
}

/// How the run of an instance ended.
pub enum Run {
    Presolved(Box<Presolved>),
    LoadError { message: String },
    Panic { message: String },
}

#[derive(Clone, Copy, Debug, PartialEq, Eq, Structural)]
pub struct Size {
    pub variables: usize,
    pub linear_rows: usize,
    pub conic_rows: usize,
    pub cone_blocks: usize,
    pub a_nonzeros: usize,
    pub g_nonzeros: usize,
    pub p_nonzeros: usize,
}

impl Size {
    pub open spec fn with_blocks(size: result::Size, cone_blocks: usize) -> Size {
        Size {
            variables: size.variables,
            linear_rows: size.linear_rows,
            conic_rows: size.conic_rows,
            cone_blocks,
            a_nonzeros: size.a_nonzeros,
            g_nonzeros: size.g_nonzeros,
            p_nonzeros: size.p_nonzeros,
        }
    }

    pub fn new(size: result::Size, cone_blocks: usize) -> (r: Size)
        ensures
            r == Size::with_blocks(size, cone_blocks),
    {
        Size {
            variables: size.variables,
            linear_rows: size.linear_rows,
            conic_rows: size.conic_rows,
            cone_blocks,
            a_nonzeros: size.a_nonzeros,
            g_nonzeros: size.g_nonzeros,
            p_nonzeros: size.p_nonzeros,
        }
    }
}

/// Effort counters. They change when an algorithm does more or less work for
/// the same reductions.
#[derive(Clone, Copy, Debug, PartialEq, Eq, Structural)]
pub struct Work {
    pub fast_phases: usize,
    pub medium_phases: usize,
    pub parallel_comparisons: usize,
    pub equalities: Equalities,
}

#[derive(Clone, Copy, Debug, PartialEq, Eq, Structural)]
pub struct Equalities {
    pub rows_examined: usize,
    pub structural_rejections: usize,
    pub pivot_rejections: usize,
    pub work_rejections: usize,
    pub attempts: usize,
    pub rejected_updates: usize,
    pub numerical_rejections: usize,
    pub constraint_fill_rejections: usize,
    pub quadratic_fill_rejections: usize,
    pub hessian_growth_rejections: usize,
    pub deadline_rejections: usize,
    pub accepted: usize,
    pub estimated_work: usize,
}

/// Counts by kind, in the order of the kinds.
pub type KindCounts = Vec<(String, usize)>;

pub struct Presolved {
    /// `unchanged`, `reduced`, `solved`, `infeasible`, or `unbounded`.
    pub outcome: &'static str,
    /// When true, the rest of the record depends on machine speed.
    pub time_limit_reached: bool,
    pub quadratic_changed: bool,
    pub before: Size,
    /// Absent when presolve stops on a certificate.
    pub after: Option<Size>,
    /// Nonzero counts by rule and kind, in the order of their names.
    pub reductions: Vec<(String, KindCounts)>,
    pub work: Work,
}

/// How presolve ended, with the cone blocks of the problem that is left.
#[derive(Clone, Copy, Debug, PartialEq, Eq, Structural)]
pub enum Ending {
    Unchanged { cones: usize },
    Reduced { cones: usize },
    Solved,
    Infeasible,
    Unbounded,
}

impl Ending {
    pub open spec fn text(self) -> Seq<char> {
        match self {
            Ending::Unchanged { .. } => "unchanged"@,
            Ending::Reduced { .. } => "reduced"@,
            Ending::Solved => "solved"@,
            Ending::Infeasible => "infeasible"@,
            Ending::Unbounded => "unbounded"@,
        }
    }

    pub open spec fn cones(self) -> usize {
        match self {
            Ending::Unchanged { cones } => cones,
            Ending::Reduced { cones } => cones,
            _ => 0,
        }
    }

    fn name(self) -> (r: &'static str)
        ensures
            r@ == self.text(),
    {
        match self {
            Ending::Unchanged { .. } => "unchanged",
            Ending::Reduced { .. } => "reduced",
            Ending::Solved => "solved",
            Ending::Infeasible => "infeasible",
            Ending::Unbounded => "unbounded",
        }
    }

    fn blocks(self) -> (r: usize)
        ensures
            r == self.cones(),
    {
        match self {
            Ending::Unchanged { cones } => cones,
            Ending::Reduced { cones } => cones,
            _ => 0,
        }
    }
}

/// What a list of counts holds.
pub open spec fn kinds_of(list: Seq<(String, usize)>) -> Seq<(Seq<char>, usize)> {
    Seq::new(list.len(), |k: int| (list[k].0@, list[k].1))
}

pub open spec fn rules_of(list: Seq<(String, KindCounts)>) -> Seq<
    (Seq<char>, Seq<(Seq<char>, usize)>),
> {
    Seq::new(list.len(), |k: int| (list[k].0@, kinds_of(list[k].1@)))
}

/// Counts in the order of their kinds, with one more; a kind that is there is
/// counted anew.
pub open spec fn with_kind(list: Seq<(Seq<char>, usize)>, kind: Seq<char>, n: usize) -> Seq<
    (Seq<char>, usize),
>
    decreases list.len(),
{
    if list.len() == 0 {
        seq![(kind, n)]
    } else if strings::precedes(list[0].0, kind) {
        seq![list[0]] + with_kind(list.skip(1), kind, n)
    } else if list[0].0 == kind {
        seq![(kind, n)] + list.skip(1)
    } else {
        seq![(kind, n)] + list
    }
}

/// Rules in order, with one more count.
pub open spec fn with_count(
    list: Seq<(Seq<char>, Seq<(Seq<char>, usize)>)>,
    rule: Seq<char>,
    kind: Seq<char>,
    n: usize,
) -> Seq<(Seq<char>, Seq<(Seq<char>, usize)>)>
    decreases list.len(),
{
    if list.len() == 0 {
        seq![(rule, with_kind(Seq::empty(), kind, n))]
    } else if strings::precedes(list[0].0, rule) {
        seq![list[0]] + with_count(list.skip(1), rule, kind, n)
    } else if list[0].0 == rule {
        seq![(rule, with_kind(list[0].1, kind, n))] + list.skip(1)
    } else {
        seq![(rule, with_kind(Seq::empty(), kind, n))] + list
    }
}

/// A list of counts, grouped by rule.
pub open spec fn grouped(list: Seq<(RuleId, ReductionKind, usize)>) -> Seq<
    (Seq<char>, Seq<(Seq<char>, usize)>),
>
    decreases list.len(),
{
    if list.len() == 0 {
        Seq::empty()
    } else {
        let (rule, kind, n) = list.last();
        with_count(grouped(list.drop_last()), rule.text(), kind.text(), n)
    }
}

proof fn kind_place(list: Seq<(Seq<char>, usize)>, kind: Seq<char>, n: usize, k: int)
    requires
        0 <= k <= list.len(),
        forall|i: int| 0 <= i < k ==> strings::precedes((#[trigger] list[i]).0, kind),
    ensures
        with_kind(list, kind, n) == list.take(k) + with_kind(list.skip(k), kind, n),
    decreases k,
{
    if k == 0 {
        assert(list.skip(0) =~= list);
        assert(list.take(0) + with_kind(list, kind, n) =~= with_kind(list, kind, n));
    } else {
        let rest = list.skip(1);
        assert(strings::precedes(list[0].0, kind));
        assert forall|i: int| 0 <= i < k - 1 implies strings::precedes(
            (#[trigger] rest[i]).0,
            kind,
        ) by {
            assert(rest[i] == list[i + 1]);
        }
        kind_place(rest, kind, n, k - 1);
        assert(rest.skip(k - 1) =~= list.skip(k));
        assert(seq![list[0]] + (rest.take(k - 1) + with_kind(list.skip(k), kind, n)) =~= list.take(
            k,
        ) + with_kind(list.skip(k), kind, n));
    }
}

proof fn rule_place(
    list: Seq<(Seq<char>, Seq<(Seq<char>, usize)>)>,
    rule: Seq<char>,
    kind: Seq<char>,
    n: usize,
    k: int,
)
    requires
        0 <= k <= list.len(),
        forall|i: int| 0 <= i < k ==> strings::precedes((#[trigger] list[i]).0, rule),
    ensures
        with_count(list, rule, kind, n) == list.take(k) + with_count(list.skip(k), rule, kind, n),
    decreases k,
{
    if k == 0 {
        assert(list.skip(0) =~= list);
        assert(list.take(0) + with_count(list, rule, kind, n) =~= with_count(list, rule, kind, n));
    } else {
        let rest = list.skip(1);
        assert(strings::precedes(list[0].0, rule));
        assert forall|i: int| 0 <= i < k - 1 implies strings::precedes(
            (#[trigger] rest[i]).0,
            rule,
        ) by {
            assert(rest[i] == list[i + 1]);
        }
        rule_place(rest, rule, kind, n, k - 1);
        assert(rest.skip(k - 1) =~= list.skip(k));
        assert(seq![list[0]] + (rest.take(k - 1) + with_count(list.skip(k), rule, kind, n))
            =~= list.take(k) + with_count(list.skip(k), rule, kind, n));
    }
}

fn add_kind(list: &mut KindCounts, kind: &str, n: usize)
    ensures
        kinds_of(final(list)@) == with_kind(kinds_of(old(list)@), kind@, n),
{
    let ghost start = list@;
    let ghost all = kinds_of(start);
    let mut k: usize = 0;
    while k < list.len() && strings::before(list[k].0.as_str(), kind)
        invariant
            k <= list@.len(),
            list@ == start,
            all == kinds_of(start),
            forall|i: int| 0 <= i < k ==> strings::precedes((#[trigger] all[i]).0, kind@),
        decreases list@.len() - k,
    {
        k = k + 1;
    }
    proof {
        kind_place(all, kind@, n, k as int);
        strings::order_is_strict(kind@);
        if k < all.len() {
            assert(all.skip(k as int)[0] == all[k as int]);
            assert(all.skip(k as int).skip(1) =~= all.skip(k + 1));
        }
    }
    if k < list.len() && strings::same(list[k].0.as_str(), kind) {
        list.set(k, (strings::copy(kind), n));
    } else {
        list.insert(k, (strings::copy(kind), n));
    }
    assert(kinds_of(list@) =~= all.take(k as int) + with_kind(all.skip(k as int), kind@, n));
}

fn add_count(list: &mut Vec<(String, KindCounts)>, rule: &str, kind: &str, n: usize)
    ensures
        rules_of(final(list)@) == with_count(rules_of(old(list)@), rule@, kind@, n),
{
    let ghost start = list@;
    let ghost all = rules_of(start);
    let mut k: usize = 0;
    while k < list.len() && strings::before(list[k].0.as_str(), rule)
        invariant
            k <= list@.len(),
            list@ == start,
            all == rules_of(start),
            forall|i: int| 0 <= i < k ==> strings::precedes((#[trigger] all[i]).0, rule@),
        decreases list@.len() - k,
    {
        k = k + 1;
    }
    proof {
        rule_place(all, rule@, kind@, n, k as int);
        strings::order_is_strict(rule@);
        if k < all.len() {
            assert(all.skip(k as int)[0] == all[k as int]);
            assert(all.skip(k as int).skip(1) =~= all.skip(k + 1));
        }
    }
    if k < list.len() && strings::same(list[k].0.as_str(), rule) {
        let mut entry: (String, KindCounts) = (strings::copy(rule), Vec::new());
        std::mem::swap(&mut entry, &mut list[k]);
        assert(entry == start[k as int]);
        add_kind(&mut entry.1, kind, n);
        list.set(k, entry);
    } else {
        let mut counts: KindCounts = Vec::new();
        assert(kinds_of(counts@) =~= Seq::<(Seq<char>, usize)>::empty());
        add_kind(&mut counts, kind, n);
        list.insert(k, (strings::copy(rule), counts));
    }
    assert(rules_of(list@) =~= all.take(k as int) + with_count(
        all.skip(k as int),
        rule@,
        kind@,
        n,
    ));
}

/// The rules, each at its own position.
pub open spec fn rules_in_place(s: Seq<RuleId>) -> bool {
    s.len() == RULES && forall|i: int| 0 <= i < RULES ==> (#[trigger] s[i]).position() == i
}

/// The kinds, each at its own position.
pub open spec fn kinds_in_place(s: Seq<ReductionKind>) -> bool {
    s.len() == KINDS && forall|i: int| 0 <= i < KINDS ==> (#[trigger] s[i]).position() == i
}

/// The nonzero counts, by rule and then by kind.
pub open spec fn entries(r: Reductions) -> Seq<(RuleId, ReductionKind, usize)> {
    r.listed(
        choose|s: Seq<RuleId>| rules_in_place(s),
        choose|s: Seq<ReductionKind>| kinds_in_place(s),
        RULES as nat,
    )
}

fn counts(r: &Reductions) -> (out: Vec<(String, KindCounts)>)
    requires
        r.wf(),
    ensures
        rules_of(out@) == grouped(entries(*r)),
{
    let list = r.iter();
    let rules = RuleId::all();
    let kinds = ReductionKind::all();
    proof {
        assert(rules_in_place(rules@));
        assert(kinds_in_place(kinds@));
        let a = choose|s: Seq<RuleId>| rules_in_place(s);
        let b = choose|s: Seq<ReductionKind>| kinds_in_place(s);
        assert(list@ == r.listed(a, b, RULES as nat));
    }
    let mut out: Vec<(String, KindCounts)> = Vec::new();
    let mut k: usize = 0;
    assert(list@.take(0) =~= Seq::<(RuleId, ReductionKind, usize)>::empty());
    assert(rules_of(out@) =~= Seq::<(Seq<char>, Seq<(Seq<char>, usize)>)>::empty());
    while k < list.len()
        invariant
            k <= list@.len(),
            rules_of(out@) == grouped(list@.take(k as int)),
        decreases list@.len() - k,
    {
        let (rule, kind, n): (RuleId, ReductionKind, usize) = list[k];
        add_count(&mut out, rule.name(), kind.name(), n);
        k = k + 1;
        assert(list@.take(k as int).drop_last() =~= list@.take(k - 1));
        assert(list@.take(k as int).last() == (rule, kind, n));
    }
    assert(list@.take(k as int) =~= list@);
    out
}

impl Presolved {
    /// Summarize a presolve call whose input had `cone_blocks` cone blocks.
    pub fn new(stats: &Stats, ending: Ending, cone_blocks: usize) -> (r: Presolved)
        requires
            stats.reductions.wf(),
        ensures
            r.outcome@ == ending.text(),
            r.time_limit_reached == stats.time_limit_reached,
            r.quadratic_changed == stats.quadratic_changed,
            r.before == Size::with_blocks(stats.before, cone_blocks),
            match stats.after {
                Some(size) => r.after == Some(Size::with_blocks(size, ending.cones())),
                None => r.after is None,
            },
            rules_of(r.reductions@) == grouped(entries(stats.reductions)),
            r.work.fast_phases == stats.phases.fast,
            r.work.medium_phases == stats.phases.medium,
            r.work.parallel_comparisons == stats.parallel_comparisons,
            r.work.equalities == (Equalities {
                rows_examined: stats.equalities.rows_examined,
                structural_rejections: stats.equalities.structural_rejections,
                pivot_rejections: stats.equalities.pivot_rejections,
                work_rejections: stats.equalities.work_rejections,
                attempts: stats.equalities.attempts,
                rejected_updates: stats.equalities.rejected_updates,
                numerical_rejections: stats.equalities.numerical_rejections,
                constraint_fill_rejections: stats.equalities.constraint_fill_rejections,
                quadratic_fill_rejections: stats.equalities.quadratic_fill_rejections,
                hessian_growth_rejections: stats.equalities.hessian_growth_rejections,
                deadline_rejections: stats.equalities.deadline_rejections,
                accepted: stats.equalities.accepted,
                estimated_work: stats.equalities.estimated_work,
            }),
    {
        let e = &stats.equalities;
        Presolved {
            outcome: ending.name(),
            time_limit_reached: stats.time_limit_reached,
            quadratic_changed: stats.quadratic_changed,
            before: Size::new(stats.before, cone_blocks),
            after: match stats.after {
                Some(size) => Some(Size::new(size, ending.blocks())),
                None => None,
            },
            reductions: counts(&stats.reductions),
            work: Work {
                fast_phases: stats.phases.fast,
                medium_phases: stats.phases.medium,
                parallel_comparisons: stats.parallel_comparisons,
                equalities: Equalities {
                    rows_examined: e.rows_examined,
                    structural_rejections: e.structural_rejections,
                    pivot_rejections: e.pivot_rejections,
                    work_rejections: e.work_rejections,
                    attempts: e.attempts,
                    rejected_updates: e.rejected_updates,
                    numerical_rejections: e.numerical_rejections,
                    constraint_fill_rejections: e.constraint_fill_rejections,
                    quadratic_fill_rejections: e.quadratic_fill_rejections,
                    hessian_growth_rejections: e.hessian_growth_rejections,
                    deadline_rejections: e.deadline_rejections,
                    accepted: e.accepted,
                    estimated_work: e.estimated_work,
                },
            },
        }
    }
}

pub open spec fn twice(instance: Seq<char>) -> Seq<char> {
    "instance "@ + instance + " recorded twice"@
}

fn twice_message(instance: &str) -> (r: String)
    ensures
        r@ == twice(instance@),
{
    let mut out = text::to_chars("instance ");
    text::put(&mut out, instance);
    text::put(&mut out, " recorded twice");
    text::to_text(&out)
}

/// What records are sorted by.
pub open spec fn record_keys(list: Seq<Record>) -> Seq<Seq<Seq<char>>> {
    Seq::new(list.len(), |k: int| seq![list[k].instance@])
}

/// The order in which records are written. No two of them may bear one
/// instance.
pub fn write_order(records: &Vec<Record>) -> (r: Result<Vec<usize>, String>)
    ensures
        match r {
            Ok(order) => {
                &&& sorting::is_order(order@, record_keys(records@), records@.len())
                &&& forall|i: int, j: int|
                    0 <= i < j < records@.len() ==> (#[trigger] records@[i]).instance@ != (
                    #[trigger] records@[j]).instance@
            },
            Err(e) => exists|i: int, j: int|
                0 <= i < records@.len() && 0 <= j < records@.len() && i != j && (
                #[trigger] records@[i]).instance@ == (#[trigger] records@[j]).instance@ && e@
                    == twice(records@[i].instance@),
        },
{
    let ghost all = record_keys(records@);
    let mut keys: Vec<Vec<String>> = Vec::new();
    let mut k: usize = 0;
    while k < records.len()
        invariant
            k <= records@.len(),
            all == record_keys(records@),
            keys@.len() == k,
            forall|i: int| 0 <= i < k ==> strings::strings((#[trigger] keys@[i])@) == all[i],
        decreases records@.len() - k,
    {
        let mut key: Vec<String> = Vec::new();
        key.push(strings::copy(records[k].instance.as_str()));
        assert(strings::strings(key@) =~= all[k as int]);
        keys.push(key);
        k = k + 1;
    }
    assert(strings::grid(keys@) =~= all);
    let order = sorting::order(&keys);
    match sorting::first_repeat(&order, &keys) {
        Some(at) => {
            proof {
                sorting::order_is_distinct(order@, all, records@.len());
                let (i, j) = (order@[at as int] as int, order@[at + 1] as int);
                assert(i < records@.len() && j < records@.len());
                assert(i != j);
                assert(all[i][0] == all[j][0]);
                assert(records@[i].instance@ == records@[j].instance@);
            }
            let first: usize = order[at];
            Err(twice_message(records[first].instance.as_str()))
        },
        None => {
            proof {
                assert forall|i: int, j: int| 0 <= i < j < records@.len() implies (
                #[trigger] records@[i]).instance@ != (#[trigger] records@[j]).instance@ by {
                    assert(all[i] != all[j]);
                    assert(all[i] =~= seq![records@[i].instance@]);
                    assert(all[j] =~= seq![records@[j].instance@]);
                }
            }
            Ok(order)
        },
    }
}

/// Members other than those of a name.
pub open spec fn without(fields: Seq<(Seq<char>, Tree)>, name: Seq<char>) -> Seq<
    (Seq<char>, Tree),
>
    decreases fields.len(),
{
    if fields.len() == 0 {
        Seq::empty()
    } else {
        let before = without(fields.drop_last(), name);
        if fields.last().0 == name {
            before
        } else {
            before.push(fields.last())
        }
    }
}

fn remove(fields: &Vec<(String, Value)>, name: &str) -> (out: Vec<(String, Value)>)
    ensures
        json::members(out@) == without(json::members(fields@), name@),
{
    let ghost all = json::members(fields@);
    proof {
        json::members_length(fields@);
        assert(all.take(0) =~= Seq::<(Seq<char>, Tree)>::empty());
    }
    let mut out: Vec<(String, Value)> = Vec::new();
    let mut k: usize = 0;
    assert(json::members(out@) =~= Seq::<(Seq<char>, Tree)>::empty());
    while k < fields.len()
        invariant
            k <= fields@.len(),
            all == json::members(fields@),
            all.len() == fields@.len(),
            json::members(out@) == without(all.take(k as int), name@),
        decreases fields@.len() - k,
    {
        proof {
            json::member_at(fields@, k as int);
            assert(all.take(k + 1).drop_last() =~= all.take(k as int));
            assert(all.take(k + 1).last() == all[k as int]);
        }
        if !strings::same(fields[k].0.as_str(), name) {
            let ghost before = out@;
            out.push((strings::copy(fields[k].0.as_str()), fields[k].1.copy()));
            assert(out@.drop_last() =~= before);
        }
        k = k + 1;
    }
    assert(all.take(k as int) =~= all);
    out
}

/// The instances of a snapshot.
pub open spec fn instances(snapshot: Seq<(String, Value)>) -> Seq<Seq<char>> {
    Seq::new(snapshot.len(), |k: int| snapshot[k].0@)
}

/// A record was taken in, or refused without a change.
pub open spec fn took_in(
    before: Seq<(String, Value)>,
    after: Seq<(String, Value)>,
    value: Value,
    r: Result<(), String>,
) -> bool {
    match json::as_text(json::field(json::tree(value), "instance"@)) {
        None => {
            &&& r matches Err(e)
            &&& e@ == "record without a string instance"@
            &&& after == before
        },
        Some(name) => if instances(before).contains(name) {
            &&& r matches Err(e)
            &&& e@ == twice(name)
            &&& after == before
        } else {
            &&& r is Ok
            &&& exists|k: int| taken(before, after, k, name, value)
        },
    }
}

/// Take a record into a snapshot, under its instance and without that field.
pub fn take_in(snapshot: &mut Snapshot, value: &Value) -> (r: Result<(), String>)
    requires
        strings::ascending(instances(old(snapshot)@)),
    ensures
        strings::ascending(instances(final(snapshot)@)),
        took_in(old(snapshot)@, final(snapshot)@, *value, r),
{
    let name = match value.text_of("instance") {
        Some(name) => name,
        None => {
            return Err(strings::copy("record without a string instance"));
        },
    };
    let mut names: Vec<String> = Vec::new();
    let mut k: usize = 0;
    while k < snapshot.len()
        invariant
            k <= snapshot@.len(),
            names@.len() == k,
            forall|i: int| 0 <= i < k ==> (#[trigger] names@[i])@ == snapshot@[i].0@,
        decreases snapshot@.len() - k,
    {
        names.push(strings::copy(snapshot[k].0.as_str()));
        k = k + 1;
    }
    assert(strings::strings(names@) =~= instances(snapshot@));
    let (found, at): (bool, usize) = strings::place(&names, name.as_str());
    if found {
        return Err(twice_message(name.as_str()));
    }
    match value {
        Value::Object(fields) => {
            let rest = remove(fields, "instance");
            let ghost start = snapshot@;
            let ghost before = instances(start);
            let ghost key = name@;
            snapshot.insert(at, (name, Value::Object(rest)));
            proof {
                let after = instances(snapshot@);
                assert(after =~= before.insert(at as int, key));
                assert forall|i: int, j: int| 0 <= i < j < after.len() implies strings::precedes(
                    #[trigger] after[i],
                    #[trigger] after[j],
                ) by {
                    if i != at {
                        assert(after[i] == before[if i < at {
                            i
                        } else {
                            i - 1
                        }]);
                    }
                    if j != at {
                        assert(after[j] == before[if j < at {
                            j
                        } else {
                            j - 1
                        }]);
                    }
                }
                assert(snapshot@.remove(at as int) =~= start);
                assert(taken(start, snapshot@, at as int, key, *value));
            }
            Ok(())
        },
        _ => Ok(()),
    }
}

/// One record more, at a place.
pub open spec fn taken(
    before: Seq<(String, Value)>,
    after: Seq<(String, Value)>,
    k: int,
    name: Seq<char>,
    value: Value,
) -> bool {
    &&& 0 <= k < after.len()
    &&& after.remove(k) == before
    &&& after[k].0@ == name
    &&& json::tree(value) matches Tree::Object(fields) && json::tree(after[k].1) == Tree::Object(
        without(fields, "instance"@),
    )
}

/// Take one line of a snapshot file in. A blank line holds no record.
pub fn take_line(snapshot: &mut Snapshot, line: &str) -> (r: Result<(), String>)
    requires
        strings::ascending(instances(old(snapshot)@)),
    ensures
        strings::ascending(instances(final(snapshot)@)),
        if text::trimmed(line@).len() == 0 {
            r is Ok && final(snapshot)@ == old(snapshot)@
        } else {
            match json::parsed(line@) {
                Err(message) => {
                    &&& r matches Err(e)
                    &&& e@ == message
                    &&& final(snapshot)@ == old(snapshot)@
                },
                Ok(tree) => exists|value: Value|
                    json::tree(value) == tree && #[trigger] took_in(
                        old(snapshot)@,
                        final(snapshot)@,
                        value,
                        r,
                    ),
            }
        },
{
    let chars = text::to_chars(line);
    let trimmed = text::trim(&chars, 0, chars.len());
    assert(chars@.subrange(0, chars@.len() as int) =~= line@);
    if trimmed.len() == 0 {
        return Ok(());
    }
    match json::parse_json(line) {
        Ok(value) => {
            let r = take_in(snapshot, &value);
            assert(took_in(old(snapshot)@, snapshot@, value, r));
            r
        },
        Err(message) => Err(message),
    }
}

} // verus!
