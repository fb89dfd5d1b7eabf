//! A report on two benchmark runs.

use crate::arithmetic;
use crate::number::{self, Real};
use crate::render;
use crate::results::{Case, Counts, Kind, Measurement, Run};
use crate::strings;
use crate::text;
use vstd::prelude::*;

verus! {

/// A text in a color of the terminal, or as it is.
pub open spec fn painted(s: Seq<char>, code: nat, color: bool) -> Seq<char> {
    if color {
        "\x1b["@ + text::decimal(code) + "m"@ + s + "\x1b[0m"@
    } else {
        s
    }
}

pub fn paint(s: &str, code: u8, color: bool) -> (out: String)
    ensures
        out@ == painted(s@, code as nat, color),
{
    if color {
        let mut out = text::to_chars("\x1b[");
        let n = text::number(code as u128);
        text::put_all(&mut out, &n);
        text::put(&mut out, "m");
        text::put(&mut out, s);
        text::put(&mut out, "\x1b[0m");
        text::to_text(&out)
    } else {
        strings::copy(s)
    }
}

/// A table in rounded borders.
pub uninterp spec fn rounded(headers: Seq<Seq<char>>, rows: Seq<Seq<Seq<char>>>) -> Seq<char>;

/// `tabled::builder::Builder` with `Style::rounded`. Claimed of it: the text
/// depends on the headings and the cells alone.
#[verifier::external_body]
fn table(headers: &Vec<String>, rows: &Vec<Vec<String>>) -> (r: String)
    ensures
        r@ == rounded(strings::strings(headers@), strings::grid(rows@)),
{
    let mut builder = tabled::builder::Builder::default();
    builder.push_record(headers.iter().cloned());
    for row in rows {
        builder.push_record(row.iter().cloned());
    }
    builder.build().with(tabled::settings::Style::rounded()).to_string()
}

/// The first thing wrong with the trials of a case, from one trial on.
pub open spec fn trial_fault(trials: Seq<Measurement>, kind: Kind, k: int) -> Option<Seq<char>>
    decreases trials.len() - k,
{
    if k < 0 || k >= trials.len() {
        None
    } else if trials[k].time_limit_reached {
        Some("presolve time limit reached"@)
    } else if !trials[k].agrees(&trials[0]) {
        Some("outcome or model size differs between trials"@)
    } else if trials[k].elapsed_ns.is_some() != (kind == Kind::Time) {
        Some("measurement does not match run type"@)
    } else {
        trial_fault(trials, kind, k + 1)
    }
}

/// What is wrong with a case, if anything.
pub open spec fn fault(case: Case, trials: nat, kind: Kind) -> Option<Seq<char>> {
    if case.errors@.len() > 0 {
        Some(strings::joined(strings::strings(case.errors@), "; "@))
    } else if case.measurements@.len() != trials || trials == 0 {
        Some(
            "expected "@ + text::decimal(trials) + " trials, found "@ + text::decimal(
                case.measurements@.len(),
            ),
        )
    } else {
        trial_fault(case.measurements@, kind, 0)
    }
}

/// Trials without fault all bear a timing, or none does.
proof fn timings_present(trials: Seq<Measurement>, kind: Kind, k: int, i: int)
    requires
        0 <= k <= i < trials.len(),
        trial_fault(trials, kind, k) is None,
    ensures
        trials[i].elapsed_ns.is_some() == (kind == Kind::Time),
    decreases i - k,
{
    if k < i {
        timings_present(trials, kind, k + 1, i);
    }
}

/// The measurement that stands for all trials of a case, or what is wrong.
pub fn checked(case: &Case, trials: usize, kind: Kind) -> (r: Result<&Measurement, String>)
    ensures
        match r {
            Ok(m) => fault(*case, trials as nat, kind) is None && case.measurements@.len() > 0 && *m
                == case.measurements@[0],
            Err(e) => fault(*case, trials as nat, kind) == Some(e@),
        },
{
    if case.errors.len() > 0 {
        let out = strings::join(&case.errors, "; ");
        return Err(text::to_text(&out));
    }
    if case.measurements.len() != trials || trials == 0 {
        let mut out = text::to_chars("expected ");
        let n = text::number(trials as u128);
        text::put_all(&mut out, &n);
        text::put(&mut out, " trials, found ");
        let n = text::number(case.measurements.len() as u128);
        text::put_all(&mut out, &n);
        return Err(text::to_text(&out));
    }
    let first = &case.measurements[0];
    let mut k: usize = 0;
    while k < case.measurements.len()
        invariant
            k <= case.measurements@.len(),
            case.measurements@.len() > 0,
            case.measurements@.len() == trials,
            case.errors@.len() == 0,
            *first == case.measurements@[0],
            fault(*case, trials as nat, kind) == trial_fault(case.measurements@, kind, k as int),
        decreases case.measurements@.len() - k,
    {
        let m = &case.measurements[k];
        if m.time_limit_reached {
            return Err(strings::copy("presolve time limit reached"));
        }
        if !m.same_result(first) {
            return Err(strings::copy("outcome or model size differs between trials"));
        }
        if m.elapsed_ns.is_some() != (kind == Kind::Time) {
            return Err(strings::copy("measurement does not match run type"));
        }
        k = k + 1;
    }
    Ok(first)
}

/// How timings are summarized and shown. Rounding belongs to the machine.
pub struct Clock<S, D, R, P> {
    /// The median of timings in nanoseconds, and a text with their spread.
    pub summary: S,
    /// A duration as text.
    pub duration: D,
    /// A relative change as text.
    pub rate: R,
    pub plus: P,
}

/// The summary can give these timings this median and this text.
pub open spec fn answers<S: Fn(&Vec<u64>) -> (Real, String)>(
    f: S,
    times: Seq<u64>,
    median: Real,
    s: Seq<char>,
) -> bool {
    exists|v: Vec<u64>, r: (Real, String)|
        v@ == times && #[trigger] call_ensures(f, (&v,), r) && r.0 == median && r.1@ == s
}

pub open spec fn summary_of<S: Fn(&Vec<u64>) -> (Real, String)>(f: S, times: Seq<u64>) -> (
    Real,
    Seq<char>,
) {
    choose|p: (Real, Seq<char>)| answers(f, times, p.0, p.1)
}

pub open spec fn duration_of<D: Fn(Real) -> String>(f: D, t: Real) -> Seq<char> {
    (choose|r: String| call_ensures(f, (t,), r))@
}

pub open spec fn rate_of<R: Fn(Real, Real) -> String>(f: R, a: Real, b: Real) -> Seq<char> {
    (choose|r: String| call_ensures(f, (a, b), r))@
}

/// The color of a change: green below, red above, gray for neither.
pub open spec fn shade(a: Real, b: Real) -> nat {
    if b.lt(a) {
        32
    } else if a.lt(b) {
        31
    } else {
        90
    }
}

fn shade_of(a: Real, b: Real) -> (c: u8)
    ensures
        c == shade(a, b),
{
    if b.less(a) {
        32
    } else if a.less(b) {
        31
    } else {
        90
    }
}

impl<
    S: Fn(&Vec<u64>) -> (Real, String),
    D: Fn(Real) -> String,
    R: Fn(Real, Real) -> String,
    P: Fn(Real, Real) -> Real,
> Clock<S, D, R, P> {
    /// Each operation accepts any arguments and depends on nothing else.
    pub open spec fn wf(&self) -> bool {
        &&& forall|v: Vec<u64>| #[trigger] call_requires(self.summary, (&v,))
        &&& forall|v: Vec<u64>, r: (Real, String)| #[trigger]
            call_ensures(self.summary, (&v,), r) ==> (r.0, r.1@) == summary_of(self.summary, v@)
        &&& forall|t: Real| #[trigger] call_requires(self.duration, (t,))
        &&& forall|t: Real, r: String| #[trigger]
            call_ensures(self.duration, (t,), r) ==> r@ == duration_of(self.duration, t)
        &&& forall|a: Real, b: Real| #[trigger] call_requires(self.rate, (a, b))
        &&& forall|a: Real, b: Real, r: String| #[trigger]
            call_ensures(self.rate, (a, b), r) ==> r@ == rate_of(self.rate, a, b)
        &&& arithmetic::functional(self.plus)
    }

    /// The relative change between two durations.
    pub open spec fn relative(&self, before: Real, after: Real) -> Seq<char> {
        if before.zero() {
            "n/a (zero baseline)"@
        } else {
            rate_of(self.rate, before, after)
        }
    }

    pub fn percent(&self, before: Real, after: Real) -> (out: String)
        requires
            self.wf(),
        ensures
            out@ == self.relative(before, after),
    {
        if before.is_zero() {
            strings::copy("n/a (zero baseline)")
        } else {
            (self.rate)(before, after)
        }
    }
}

/// The timings of one rule, summed.
pub struct Total {
    pub rule: String,
    pub cases: usize,
    pub first: Real,
    pub second: Real,
}

/// What a total says.
pub ghost struct Sum {
    pub rule: Seq<char>,
    pub cases: nat,
    pub first: Real,
    pub second: Real,
}

impl Total {
    pub open spec fn view(&self) -> Sum {
        Sum {
            rule: self.rule@,
            cases: self.cases as nat,
            first: self.first,
            second: self.second,
        }
    }
}

pub open spec fn totals(list: Seq<Total>) -> Seq<Sum> {
    Seq::new(list.len(), |k: int| list[k]@)
}

/// The totals, in the order of the rules, with one more case.
pub open spec fn totalled<P: Fn(Real, Real) -> Real>(
    plus: P,
    list: Seq<Sum>,
    rule: Seq<char>,
    a: Real,
    b: Real,
) -> Seq<Sum>
    decreases list.len(),
{
    let fresh = Sum {
        rule,
        cases: 1,
        first: arithmetic::value(plus, number::zero(), a),
        second: arithmetic::value(plus, number::zero(), b),
    };
    if list.len() == 0 {
        seq![fresh]
    } else if strings::precedes(list[0].rule, rule) {
        seq![list[0]] + totalled(plus, list.skip(1), rule, a, b)
    } else if list[0].rule == rule {
        seq![
            Sum {
                rule,
                cases: list[0].cases + 1,
                first: arithmetic::value(plus, list[0].first, a),
                second: arithmetic::value(plus, list[0].second, b),
            },
        ] + list.skip(1)
    } else {
        seq![fresh] + list
    }
}

proof fn total_place<P: Fn(Real, Real) -> Real>(
    plus: P,
    list: Seq<Sum>,
    rule: Seq<char>,
    a: Real,
    b: Real,
    k: int,
)
    requires
        0 <= k <= list.len(),
        forall|i: int| 0 <= i < k ==> strings::precedes((#[trigger] list[i]).rule, rule),
    ensures
        totalled(plus, list, rule, a, b) == list.take(k) + totalled(
            plus,
            list.skip(k),
            rule,
            a,
            b,
        ),
    decreases k,
{
    if k == 0 {
        assert(list.skip(0) =~= list);
        assert(list.take(0) + totalled(plus, list, rule, a, b) =~= totalled(
            plus,
            list,
            rule,
            a,
            b,
        ));
    } else {
        let rest = list.skip(1);
        assert(strings::precedes(list[0].rule, rule));
        assert forall|i: int| 0 <= i < k - 1 implies strings::precedes(
            (#[trigger] rest[i]).rule,
            rule,
        ) by {
            assert(rest[i] == list[i + 1]);
        }
        total_place(plus, rest, rule, a, b, k - 1);
        assert(rest.skip(k - 1) =~= list.skip(k));
        assert(seq![list[0]] + (rest.take(k - 1) + totalled(plus, list.skip(k), rule, a, b))
            =~= list.take(k) + totalled(plus, list.skip(k), rule, a, b));
    }
}

fn add_total<P: Fn(Real, Real) -> Real>(
    list: &mut Vec<Total>,
    rule: &Vec<char>,
    a: Real,
    b: Real,
    plus: &P,
)
    requires
        arithmetic::functional(*plus),
        forall|k: int| 0 <= k < old(list)@.len() ==> (#[trigger] old(list)@[k]).cases < usize::MAX,
    ensures
        totals(final(list)@) == totalled(*plus, totals(old(list)@), rule@, a, b),
        forall|k: int|
            0 <= k < final(list)@.len() ==> (#[trigger] final(list)@[k]).cases <= 1 || exists|i: int|
                0 <= i < old(list)@.len() && final(list)@[k].cases <= (#[trigger] old(list)@[i]).cases
                    + 1,
{
    let ghost start = list@;
    let ghost all = totals(start);
    let name = text::to_text(rule);
    let mut k: usize = 0;
    while k < list.len() && strings::before(list[k].rule.as_str(), name.as_str())
        invariant
            k <= list@.len(),
            list@ == start,
            all == totals(start),
            name@ == rule@,
            forall|i: int| 0 <= i < k ==> strings::precedes((#[trigger] all[i]).rule, rule@),
        decreases list@.len() - k,
    {
        k = k + 1;
    }
    proof {
        total_place(*plus, all, rule@, a, b, k as int);
        if k < all.len() {
            assert(all.skip(k as int)[0] == start[k as int]@);
        }
    }
    if k < list.len() && strings::same(list[k].rule.as_str(), name.as_str()) {
        assert(start[k as int].cases < usize::MAX);
        let first = plus(list[k].first, a);
        let second = plus(list[k].second, b);
        let cases: usize = list[k].cases + 1;
        proof {
            strings::order_is_strict(rule@);
        }
        list.set(k, Total { rule: name, cases, first, second });
        proof {
            let rest = all.skip(k as int);
            assert(rest.skip(1) =~= all.skip(k + 1));
            assert(totals(list@) =~= all.take(k as int) + totalled(*plus, rest, rule@, a, b));
            assert forall|i: int| 0 <= i < list@.len() implies (#[trigger] list@[i]).cases <= 1
                || exists|j: int|
                0 <= j < start.len() && list@[i].cases <= (#[trigger] start[j]).cases + 1 by {
                assert(list@[i].cases <= start[i].cases + 1);
            }
        }
    } else {
        let first = plus(number::zero(), a);
        let second = plus(number::zero(), b);
        list.insert(k, Total { rule: name, cases: 1, first, second });
        proof {
            let rest = all.skip(k as int);
            assert(totals(list@) =~= all.take(k as int) + totalled(*plus, rest, rule@, a, b));
            assert forall|i: int| 0 <= i < list@.len() implies (#[trigger] list@[i]).cases <= 1
                || exists|j: int|
                0 <= j < start.len() && list@[i].cases <= (#[trigger] start[j]).cases + 1 by {
                if i < k {
                    assert(list@[i] == start[i]);
                } else if i > k {
                    assert(list@[i] == start[i - 1]);
                }
            }
        }
    }
}

/// What has been found so far.
pub struct Book {
    pub issues: Vec<String>,
    pub rows: Vec<Vec<String>>,
    pub matched: usize,
    pub changed: usize,
    pub totals: Vec<Total>,
}

/// What a book holds.
pub ghost struct Page {
    pub issues: Seq<Seq<char>>,
    pub rows: Seq<Seq<Seq<char>>>,
    pub matched: nat,
    pub changed: nat,
    pub totals: Seq<Sum>,
}

pub open spec fn blank() -> Page {
    Page {
        issues: Seq::empty(),
        rows: Seq::empty(),
        matched: 0,
        changed: 0,
        totals: Seq::empty(),
    }
}

/// The rule of a case: what follows the last slash of its name.
pub open spec fn rule_of(id: Seq<char>) -> Seq<char>
    decreases id.len(),
{
    if id.len() == 0 || id.last() == '/' {
        Seq::empty()
    } else {
        rule_of(id.drop_last()).push(id.last())
    }
}

fn rule_name(id: &str) -> (out: Vec<char>)
    ensures
        out@ == rule_of(id@),
{
    let chars = text::to_chars(id);
    let mut k: usize = chars.len();
    assert(chars@.take(k as int) =~= chars@);
    assert(chars@.subrange(k as int, chars@.len() as int) =~= Seq::<char>::empty());
    assert(rule_of(chars@) =~= rule_of(chars@) + Seq::<char>::empty());
    while k > 0 && chars[k - 1] != '/'
        invariant
            k <= chars@.len(),
            rule_of(chars@) == rule_of(chars@.take(k as int)) + chars@.subrange(
                k as int,
                chars@.len() as int,
            ),
        decreases k,
    {
        proof {
            let here = chars@.take(k as int);
            assert(here.drop_last() =~= chars@.take(k - 1));
            assert(here.last() == chars@[k - 1]);
            assert(rule_of(here.drop_last()).push(here.last()) + chars@.subrange(
                k as int,
                chars@.len() as int,
            ) =~= rule_of(here.drop_last()) + chars@.subrange(k - 1, chars@.len() as int));
        }
        k = k - 1;
    }
    proof {
        let here = chars@.take(k as int);
        if k > 0 {
            assert(here.last() == chars@[k - 1]);
        }
        assert(rule_of(here) =~= Seq::<char>::empty());
        assert(rule_of(here) + chars@.subrange(k as int, chars@.len() as int) =~= chars@.subrange(
            k as int,
            chars@.len() as int,
        ));
    }
    let n: usize = chars.len();
    text::slice(&chars, k, n)
}

pub open spec fn metrics() -> Seq<Seq<char>> {
    seq![
        "variables"@,
        "linear rows"@,
        "conic rows"@,
        "A nnz"@,
        "G nnz"@,
        "P nnz"@,
    ]
}

/// The rows of the sizes that differ, over the first metrics.
pub open spec fn size_rows(
    id: Seq<char>,
    a: Seq<usize>,
    b: Seq<usize>,
    color: bool,
    n: nat,
) -> Seq<Seq<Seq<char>>>
    decreases n,
{
    if n == 0 {
        Seq::empty()
    } else {
        let k = n - 1;
        let before = size_rows(id, a, b, color, k as nat);
        if a[k] == b[k] {
            before
        } else {
            before.push(
                seq![
                    id,
                    metrics()[k],
                    text::decimal(a[k] as nat),
                    text::decimal(b[k] as nat),
                    painted(
                        render::with_sign(b[k] - a[k]),
                        if b[k] < a[k] {
                            32
                        } else {
                            31
                        },
                        color,
                    ),
                ],
            )
        }
    }
}

pub open spec fn availability(size: Option<Counts>) -> Seq<char> {
    if size is Some {
        "available"@
    } else {
        "unavailable"@
    }
}

/// The rows that show how two results differ.
pub open spec fn difference_rows(
    id: Seq<char>,
    a: Measurement,
    b: Measurement,
    color: bool,
) -> Seq<Seq<Seq<char>>> {
    let outcome = if a.outcome@ != b.outcome@ {
        seq![seq![id, "outcome"@, a.outcome@, b.outcome@, painted("review"@, 33, color)]]
    } else {
        Seq::empty()
    };
    outcome + match (a.after, b.after) {
        (Some(x), Some(y)) => size_rows(id, x.list(), y.list(), color, 6),
        (None, None) => Seq::empty(),
        _ => seq![
            seq![
                id,
                "final sizes"@,
                availability(a.after),
                availability(b.after),
                painted("review"@, 33, color),
            ],
        ],
    }
}

/// The timings of the trials of a case.
pub open spec fn timings(case: Case) -> Seq<u64> {
    Seq::new(case.measurements@.len(), |k: int| case.measurements@[k].elapsed_ns->0)
}

fn times(case: &Case) -> (out: Vec<u64>)
    requires
        forall|k: int|
            0 <= k < case.measurements@.len() ==> (#[trigger] case.measurements@[k]).elapsed_ns is Some,
    ensures
        out@ == timings(*case),
{
    let mut out: Vec<u64> = Vec::new();
    let mut k: usize = 0;
    while k < case.measurements.len()
        invariant
            k <= case.measurements@.len(),
            forall|k: int|
                0 <= k < case.measurements@.len() ==> (
                #[trigger] case.measurements@[k]).elapsed_ns is Some,
            out@ == timings(*case).take(k as int),
        decreases case.measurements@.len() - k,
    {
        assert(case.measurements@[k as int].elapsed_ns is Some);
        match case.measurements[k].elapsed_ns {
            Some(t) => {
                out.push(t);
            },
            None => {},
        }
        k = k + 1;
        assert(out@ =~= timings(*case).take(k as int));
    }
    assert(timings(*case).take(k as int) =~= timings(*case));
    out
}

/// The note on a timing: a different outcome, or else a different size.
pub open spec fn note(a: Measurement, b: Measurement) -> Seq<char> {
    if a.outcome@ != b.outcome@ {
        a.outcome@ + " → "@ + b.outcome@
    } else if a.after != b.after {
        "output size changed"@
    } else {
        Seq::empty()
    }
}

fn same_size(a: &Option<Counts>, b: &Option<Counts>) -> (r: bool)
    ensures
        r == (*a == *b),
{
    match (a, b) {
        (Some(x), Some(y)) => *x == *y,
        (None, None) => true,
        _ => false,
    }
}

fn note_text(a: &Measurement, b: &Measurement) -> (out: String)
    ensures
        out@ == note(*a, *b),
{
    if !strings::same(a.outcome.as_str(), b.outcome.as_str()) {
        let mut out = text::to_chars(a.outcome.as_str());
        text::put(&mut out, " → ");
        text::put(&mut out, b.outcome.as_str());
        text::to_text(&out)
    } else if !same_size(&a.after, &b.after) {
        strings::copy("output size changed")
    } else {
        let out = String::new();
        assert(out@ =~= Seq::<char>::empty());
        out
    }
}

impl Book {
    pub open spec fn view(&self) -> Page {
        Page {
            issues: strings::strings(self.issues@),
            rows: strings::grid(self.rows@),
            matched: self.matched as nat,
            changed: self.changed as nat,
            totals: totals(self.totals@),
        }
    }

    /// Counts stay below the number of cases seen.
    pub open spec fn bounded(&self, n: nat) -> bool {
        &&& self.matched <= n
        &&& self.changed <= n
        &&& forall|k: int| 0 <= k < self.totals@.len() ==> (#[trigger] self.totals@[k]).cases <= n
    }

    fn issue(&mut self, s: Vec<char>)
        ensures
            final(self)@ == (Page { issues: old(self)@.issues.push(s@), ..old(self)@ }),
            final(self).totals == old(self).totals,
            final(self).matched == old(self).matched,
            final(self).changed == old(self).changed,
    {
        let ghost start = self@;
        self.issues.push(text::to_text(&s));
        assert(strings::strings(self.issues@) =~= start.issues.push(s@));
    }

    fn row(&mut self, row: Vec<String>)
        ensures
            final(self)@ == (Page { rows: old(self)@.rows.push(strings::strings(row@)), ..old(self)@ }),
            final(self).totals == old(self).totals,
            final(self).matched == old(self).matched,
            final(self).changed == old(self).changed,
    {
        let ghost start = self@;
        let ghost cells = strings::strings(row@);
        self.rows.push(row);
        assert(strings::grid(self.rows@) =~= start.rows.push(cells));
    }

    /// Add the rows that show how two results differ.
    fn differences(&mut self, id: &str, a: &Measurement, b: &Measurement, color: bool)
        ensures
            final(self)@ == (Page {
                rows: old(self)@.rows + difference_rows(id@, *a, *b, color),
                ..old(self)@
            }),
            final(self).totals == old(self).totals,
            final(self).matched == old(self).matched,
            final(self).changed == old(self).changed,
    {
        let ghost start = *self;
        let ghost outcome = if a.outcome@ != b.outcome@ {
            seq![seq![id@, "outcome"@, a.outcome@, b.outcome@, painted("review"@, 33, color)]]
        } else {
            Seq::empty()
        };
        if !strings::same(a.outcome.as_str(), b.outcome.as_str()) {
            let mut row: Vec<String> = Vec::new();
            row.push(strings::copy(id));
            row.push(strings::copy("outcome"));
            row.push(strings::copy(a.outcome.as_str()));
            row.push(strings::copy(b.outcome.as_str()));
            row.push(paint("review", 33, color));
            assert(strings::strings(row@) =~= outcome[0]);
            self.row(row);
        }
        let ghost mid = *self;
        assert(mid@.rows =~= start@.rows + outcome);
        match (&a.after, &b.after) {
            (Some(x), Some(y)) => {
                let (left, right): ([usize; 6], [usize; 6]) = (x.values(), y.values());
                let mut names: Vec<String> = Vec::new();
                names.push(strings::copy("variables"));
                names.push(strings::copy("linear rows"));
                names.push(strings::copy("conic rows"));
                names.push(strings::copy("A nnz"));
                names.push(strings::copy("G nnz"));
                names.push(strings::copy("P nnz"));
                assert(strings::strings(names@) =~= metrics());
                let mut k: usize = 0;
                assert(mid@.rows + size_rows(id@, left@, right@, color, 0) =~= mid@.rows);
                while k < 6
                    invariant
                        k <= 6,
                        names@.len() == 6,
                        strings::strings(names@) == metrics(),
                        left@.len() == 6,
                        right@.len() == 6,
                        self@ == (Page {
                            rows: mid@.rows + size_rows(id@, left@, right@, color, k as nat),
                            ..mid@
                        }),
                        self.totals == mid.totals,
                        self.matched == mid.matched,
                        self.changed == mid.changed,
                    decreases 6 - k,
                {
                    let ghost now = self@;
                    let (p, q): (usize, usize) = (left[k], right[k]);
                    if p != q {
                        let sign = render::signed(q as i128 - p as i128);
                        let code: u8 = if q < p {
                            32
                        } else {
                            31
                        };
                        let mut row: Vec<String> = Vec::new();
                        row.push(strings::copy(id));
                        row.push(strings::copy(names[k].as_str()));
                        let n = text::number(p as u128);
                        row.push(text::to_text(&n));
                        let n = text::number(q as u128);
                        row.push(text::to_text(&n));
                        row.push(paint(sign.as_str(), code, color));
                        proof {
                            assert(metrics()[k as int] == names@[k as int]@);
                            let cells = seq![
                                id@,
                                metrics()[k as int],
                                text::decimal(p as nat),
                                text::decimal(q as nat),
                                painted(
                                    render::with_sign(q - p),
                                    if q < p {
                                        32
                                    } else {
                                        31
                                    },
                                    color,
                                ),
                            ];
                            assert(strings::strings(row@) =~= cells);
                        }
                        self.row(row);
                    }
                    k = k + 1;
                    proof {
                        assert(self@.rows =~= mid@.rows + size_rows(
                            id@,
                            left@,
                            right@,
                            color,
                            k as nat,
                        ));
                    }
                }
            },
            (None, None) => {},
            _ => {
                let mut row: Vec<String> = Vec::new();
                row.push(strings::copy(id));
                row.push(strings::copy("final sizes"));
                row.push(available(&a.after));
                row.push(available(&b.after));
                row.push(paint("review", 33, color));
                assert(strings::strings(row@) =~= seq![
                    id@,
                    "final sizes"@,
                    availability(a.after),
                    availability(b.after),
                    painted("review"@, 33, color),
                ]);
                self.row(row);
            },
        }
        assert(self@.rows =~= start@.rows + difference_rows(id@, *a, *b, color));
    }
}

fn available(size: &Option<Counts>) -> (out: String)
    ensures
        out@ == availability(*size),
{
    match size {
        Some(_) => strings::copy("available"),
        None => strings::copy("unavailable"),
    }
}

/// The issue that a case raises in one run.
pub open spec fn faulty(id: Seq<char>, name: Seq<char>, fault: Seq<char>) -> Seq<char> {
    id + " ("@ + name + "): "@ + fault
}

fn fault_line(id: &str, name: &str, fault: &str) -> (out: Vec<char>)
    ensures
        out@ == faulty(id@, name@, fault@),
{
    let mut out = text::to_chars(id);
    text::put(&mut out, " (");
    text::put(&mut out, name);
    text::put(&mut out, "): ");
    text::put(&mut out, fault);
    out
}

/// The first measurement of a case.
pub open spec fn lead(case: Case) -> Measurement {
    case.measurements@[0]
}

impl<
    S: Fn(&Vec<u64>) -> (Real, String),
    D: Fn(Real) -> String,
    R: Fn(Real, Real) -> String,
    P: Fn(Real, Real) -> Real,
> Clock<S, D, R, P> {
    pub open spec fn median(&self, case: Case) -> Real {
        summary_of(self.summary, timings(case)).0
    }

    pub open spec fn spread(&self, case: Case) -> Seq<char> {
        summary_of(self.summary, timings(case)).1
    }

    /// The row of a timed case.
    pub open spec fn time_row(&self, id: Seq<char>, a: Case, b: Case, color: bool) -> Seq<
        Seq<char>,
    > {
        let (ta, tb) = (self.median(a), self.median(b));
        seq![
            id,
            self.spread(a),
            self.spread(b),
            painted(self.relative(ta, tb), shade(ta, tb), color),
            painted(note(lead(a), lead(b)), 33, color),
        ]
    }

    /// A case that both runs have, without fault and on the same input. A
    /// different outcome does not count as a like-for-like timing.
    pub open spec fn paired(
        &self,
        page: Page,
        id: Seq<char>,
        a: Case,
        b: Case,
        kind: Kind,
        color: bool,
    ) -> Page {
        let matched = Page { matched: page.matched + 1, ..page };
        if kind == Kind::Time {
            Page {
                rows: page.rows.push(self.time_row(id, a, b, color)),
                totals: if lead(a).outcome@ == lead(b).outcome@ {
                    totalled(
                        self.plus,
                        page.totals,
                        rule_of(id),
                        self.median(a),
                        self.median(b),
                    )
                } else {
                    page.totals
                },
                ..matched
            }
        } else if lead(a).agrees(&lead(b)) {
            matched
        } else {
            Page {
                changed: page.changed + 1,
                rows: page.rows + difference_rows(id, lead(a), lead(b), color),
                ..matched
            }
        }
    }

    /// One case of either run.
    pub open spec fn stepped(
        &self,
        page: Page,
        old_run: Run,
        new_run: Run,
        id: Seq<char>,
        a: Option<Case>,
        b: Option<Case>,
        color: bool,
    ) -> Page {
        match (a, b) {
            (Some(a), Some(b)) => {
                let fa = fault(a, old_run.metadata.trials as nat, old_run.metadata.kind);
                let fb = fault(b, new_run.metadata.trials as nat, new_run.metadata.kind);
                if a.input_hash@ != b.input_hash@ {
                    Page { issues: page.issues.push(id + ": input file changed"@), ..page }
                } else if fa is Some || fb is Some {
                    let first = match fa {
                        Some(e) => page.issues.push(faulty(id, old_run.metadata.name@, e)),
                        None => page.issues,
                    };
                    let second = match fb {
                        Some(e) => first.push(faulty(id, new_run.metadata.name@, e)),
                        None => first,
                    };
                    Page { issues: second, ..page }
                } else if lead(a).before != lead(b).before {
                    Page {
                        issues: page.issues.push(id + ": input dimensions/nonzeros differ"@),
                        ..page
                    }
                } else {
                    self.paired(page, id, a, b, old_run.metadata.kind, color)
                }
            },
            _ => Page {
                issues: page.issues.push(
                    id + ": missing from "@ + if a is Some {
                        new_run.metadata.name@
                    } else {
                        old_run.metadata.name@
                    },
                ),
                ..page
            },
        }
    }

    /// All cases of two runs, in the order of their names.
    pub open spec fn read(
        &self,
        page: Page,
        old_run: Run,
        new_run: Run,
        a: Seq<(String, Case)>,
        b: Seq<(String, Case)>,
        color: bool,
    ) -> Page
        decreases a.len() + b.len(),
    {
        if a.len() == 0 && b.len() == 0 {
            page
        } else {
            let in_a = b.len() == 0 || a.len() > 0 && !strings::precedes(b[0].0@, a[0].0@);
            let in_b = a.len() == 0 || b.len() > 0 && !strings::precedes(a[0].0@, b[0].0@);
            let id = if in_a {
                a[0].0@
            } else {
                b[0].0@
            };
            let here = self.stepped(
                page,
                old_run,
                new_run,
                id,
                if in_a {
                    Some(a[0].1)
                } else {
                    None
                },
                if in_b {
                    Some(b[0].1)
                } else {
                    None
                },
                color,
            );
            if in_a && in_b {
                self.read(here, old_run, new_run, a.skip(1), b.skip(1), color)
            } else if in_a {
                self.read(here, old_run, new_run, a.skip(1), b, color)
            } else if in_b {
                self.read(here, old_run, new_run, a, b.skip(1), color)
            } else {
                here
            }
        }
    }

    fn pair(&self, book: &mut Book, id: &str, a: &Case, b: &Case, kind: Kind, color: bool, Ghost(n): Ghost<nat>)
        requires
            self.wf(),
            a.measurements@.len() > 0,
            b.measurements@.len() > 0,
            kind == Kind::Time ==> forall|k: int|
                0 <= k < a.measurements@.len() ==> (#[trigger] a.measurements@[k]).elapsed_ns is Some,
            kind == Kind::Time ==> forall|k: int|
                0 <= k < b.measurements@.len() ==> (#[trigger] b.measurements@[k]).elapsed_ns is Some,
            old(book).bounded(n),
            n < usize::MAX,
        ensures
            final(book)@ == self.paired(old(book)@, id@, *a, *b, kind, color),
            final(book).bounded(n + 1),
    {
        let ghost start = *book;
        let (ma, mb) = (&a.measurements[0], &b.measurements[0]);
        book.matched = book.matched + 1;
        if kind == Kind::Time {
            let va = times(a);
            let vb = times(b);
            let (ta, sa): (Real, String) = (self.summary)(&va);
            let (tb, sb): (Real, String) = (self.summary)(&vb);
            let rate = self.percent(ta, tb);
            let remark = note_text(ma, mb);
            let mut row: Vec<String> = Vec::new();
            row.push(strings::copy(id));
            row.push(sa);
            row.push(sb);
            row.push(paint(rate.as_str(), shade_of(ta, tb), color));
            row.push(paint(remark.as_str(), 33, color));
            assert(strings::strings(row@) =~= self.time_row(id@, *a, *b, color));
            book.row(row);
            if strings::same(ma.outcome.as_str(), mb.outcome.as_str()) {
                let rule = rule_name(id);
                assert forall|k: int| 0 <= k < book.totals@.len() implies (
                #[trigger] book.totals@[k]).cases < usize::MAX by {
                    assert(start.totals@[k].cases <= n);
                }
                add_total(&mut book.totals, &rule, ta, tb, &self.plus);
                proof {
                    assert forall|k: int| 0 <= k < book.totals@.len() implies (
                    #[trigger] book.totals@[k]).cases <= n + 1 by {}
                }
            }
        } else if !ma.same_result(mb) {
            book.changed = book.changed + 1;
            book.differences(id, ma, mb, color);
        }
    }

    fn step(
        &self,
        book: &mut Book,
        old_run: &Run,
        new_run: &Run,
        id: &str,
        a: Option<&Case>,
        b: Option<&Case>,
        color: bool,
        Ghost(n): Ghost<nat>,
    )
        requires
            self.wf(),
            old_run.metadata.kind == new_run.metadata.kind,
            old(book).bounded(n),
            n < usize::MAX,
        ensures
            final(book)@ == self.stepped(
                old(book)@,
                *old_run,
                *new_run,
                id@,
                match a {
                    Some(c) => Some(*c),
                    None => None,
                },
                match b {
                    Some(c) => Some(*c),
                    None => None,
                },
                color,
            ),
            final(book).bounded(n + 1),
    {
        match (a, b) {
            (Some(a), Some(b)) => {
                if !strings::same(a.input_hash.as_str(), b.input_hash.as_str()) {
                    let mut s = text::to_chars(id);
                    text::put(&mut s, ": input file changed");
                    book.issue(s);
                    return;
                }
                let ra = checked(a, old_run.metadata.trials, old_run.metadata.kind);
                let rb = checked(b, new_run.metadata.trials, new_run.metadata.kind);
                match (ra, rb) {
                    (Ok(ma), Ok(mb)) => {
                        if ma.before != mb.before {
                            let mut s = text::to_chars(id);
                            text::put(&mut s, ": input dimensions/nonzeros differ");
                            book.issue(s);
                            return;
                        }
                        proof {
                            let kind = old_run.metadata.kind;
                            assert forall|k: int|
                                kind == Kind::Time && 0 <= k < a.measurements@.len() implies (
                            #[trigger] a.measurements@[k]).elapsed_ns is Some by {
                                timings_present(a.measurements@, kind, 0, k);
                            }
                            assert forall|k: int|
                                kind == Kind::Time && 0 <= k < b.measurements@.len() implies (
                            #[trigger] b.measurements@[k]).elapsed_ns is Some by {
                                timings_present(b.measurements@, kind, 0, k);
                            }
                        }
                        self.pair(book, id, a, b, old_run.metadata.kind, color, Ghost(n));
                    },
                    (ra, rb) => {
                        if let Err(e) = ra {
                            book.issue(
                                fault_line(id, old_run.metadata.name.as_str(), e.as_str()),
                            );
                        }
                        if let Err(e) = rb {
                            book.issue(
                                fault_line(id, new_run.metadata.name.as_str(), e.as_str()),
                            );
                        }
                    },
                }
            },
            _ => {
                let mut s = text::to_chars(id);
                text::put(&mut s, ": missing from ");
                text::put(
                    &mut s,
                    if a.is_some() {
                        new_run.metadata.name.as_str()
                    } else {
                        old_run.metadata.name.as_str()
                    },
                );
                book.issue(s);
            },
        }
    }
}

/// The first line of a report.
pub open spec fn header(old_run: Run, new_run: Run) -> Seq<char> {
    old_run.metadata.kind.text() + ": "@ + old_run.metadata.name@ + " → "@
        + new_run.metadata.name@ + "\n"@
}

fn put_header(old_run: &Run, new_run: &Run) -> (out: Vec<char>)
    ensures
        out@ == header(*old_run, *new_run),
{
    let mut out = text::to_chars(old_run.metadata.kind.as_str());
    text::put(&mut out, ": ");
    text::put(&mut out, old_run.metadata.name.as_str());
    text::put(&mut out, " → ");
    text::put(&mut out, new_run.metadata.name.as_str());
    text::put(&mut out, "\n");
    out
}

/// A list with one more member where a condition holds.
pub open spec fn push_if(list: Seq<Seq<char>>, b: bool, s: Seq<char>) -> Seq<Seq<char>> {
    if b {
        list.push(s)
    } else {
        list
    }
}

pub open spec fn settings_issue(old_run: Run, new_run: Run) -> Seq<char> {
    "settings differ:\n  "@ + old_run.metadata.name@ + ": "@ + old_run.metadata.settings@ + "\n  "@
        + new_run.metadata.name@ + ": "@ + new_run.metadata.settings@
}

pub open spec fn machines_issue(old_run: Run, new_run: Run) -> Seq<char> {
    "machines differ: "@ + old_run.metadata.machine@ + " versus "@ + new_run.metadata.machine@
}

/// What keeps two runs from being compared at all.
pub open spec fn incompatibilities(old_run: Run, new_run: Run) -> Seq<Seq<char>> {
    let list = push_if(
        Seq::empty(),
        !old_run.complete,
        old_run.metadata.name@ + " is incomplete"@,
    );
    let list = push_if(list, !new_run.complete, new_run.metadata.name@ + " is incomplete"@);
    let list = push_if(
        list,
        old_run.metadata.settings@ != new_run.metadata.settings@,
        settings_issue(old_run, new_run),
    );
    let list = push_if(
        list,
        old_run.metadata.kind == Kind::Time && old_run.metadata.machine@
            != new_run.metadata.machine@,
        machines_issue(old_run, new_run),
    );
    push_if(list, old_run.metadata.kind != new_run.metadata.kind, "run types differ"@)
}

fn add(list: &mut Vec<String>, s: &Vec<char>)
    ensures
        strings::strings(final(list)@) == strings::strings(old(list)@).push(s@),
{
    let ghost start = strings::strings(list@);
    list.push(text::to_text(s));
    assert(strings::strings(list@) =~= start.push(s@));
}

fn incompatible(old_run: &Run, new_run: &Run) -> (list: Vec<String>)
    ensures
        strings::strings(list@) == incompatibilities(*old_run, *new_run),
{
    let (o, n) = (&old_run.metadata, &new_run.metadata);
    let mut list: Vec<String> = Vec::new();
    assert(strings::strings(list@) =~= Seq::<Seq<char>>::empty());
    if !old_run.complete {
        let mut s = text::to_chars(o.name.as_str());
        text::put(&mut s, " is incomplete");
        self::add(&mut list, &s);
    }
    if !new_run.complete {
        let mut s = text::to_chars(n.name.as_str());
        text::put(&mut s, " is incomplete");
        self::add(&mut list, &s);
    }
    if !strings::same(o.settings.as_str(), n.settings.as_str()) {
        let mut s = text::to_chars("settings differ:\n  ");
        text::put(&mut s, o.name.as_str());
        text::put(&mut s, ": ");
        text::put(&mut s, o.settings.as_str());
        text::put(&mut s, "\n  ");
        text::put(&mut s, n.name.as_str());
        text::put(&mut s, ": ");
        text::put(&mut s, n.settings.as_str());
        self::add(&mut list, &s);
    }
    if o.kind == Kind::Time && !strings::same(o.machine.as_str(), n.machine.as_str()) {
        let mut s = text::to_chars("machines differ: ");
        text::put(&mut s, o.machine.as_str());
        text::put(&mut s, " versus ");
        text::put(&mut s, n.machine.as_str());
        self::add(&mut list, &s);
    }
    if o.kind != n.kind {
        let s = text::to_chars("run types differ");
        self::add(&mut list, &s);
    }
    list
}

/// Issues, one below the other.
pub open spec fn issue_lines(list: Seq<Seq<char>>, color: bool) -> Seq<char>
    decreases list.len(),
{
    if list.len() == 0 {
        Seq::empty()
    } else {
        issue_lines(list.drop_last(), color) + painted(list.last(), 33, color) + "\n"@
    }
}

fn put_issues(out: &mut Vec<char>, list: &Vec<String>, color: bool)
    ensures
        final(out)@ == old(out)@ + issue_lines(strings::strings(list@), color),
{
    let ghost start = out@;
    let ghost all = strings::strings(list@);
    let mut k: usize = 0;
    assert(all.take(0) =~= Seq::<Seq<char>>::empty());
    assert(start + issue_lines(all.take(0), color) =~= start);
    while k < list.len()
        invariant
            k <= list@.len(),
            all == strings::strings(list@),
            out@ == start + issue_lines(all.take(k as int), color),
        decreases list@.len() - k,
    {
        let s = paint(list[k].as_str(), 33, color);
        text::put(out, s.as_str());
        text::put(out, "\n");
        k = k + 1;
        proof {
            let here = all.take(k as int);
            assert(here.drop_last() =~= all.take(k - 1));
            assert(here.last() == list@[k - 1]@);
            assert(out@ =~= start + issue_lines(here, color));
        }
    }
    assert(all.take(k as int) =~= all);
}

pub open spec fn case_headings(kind: Kind) -> Seq<Seq<char>> {
    if kind == Kind::Time {
        seq![
            "Case"@,
            "First: median [p10–p90]"@,
            "Second: median [p10–p90]"@,
            "Change"@,
            "Note"@,
        ]
    } else {
        seq!["Case"@, "Metric"@, "First: remaining"@, "Second: remaining"@, "Difference"@]
    }
}

fn five(a: &str, b: &str, c: &str, d: &str, e: &str) -> (out: Vec<String>)
    ensures
        strings::strings(out@) == seq![a@, b@, c@, d@, e@],
{
    let mut out: Vec<String> = Vec::new();
    out.push(strings::copy(a));
    out.push(strings::copy(b));
    out.push(strings::copy(c));
    out.push(strings::copy(d));
    out.push(strings::copy(e));
    assert(strings::strings(out@) =~= seq![a@, b@, c@, d@, e@]);
    out
}

pub open spec fn rule_headings() -> Seq<Seq<char>> {
    seq!["Rule"@, "Cases"@, "First"@, "Second"@, "Change"@]
}

/// The lines after the tables of a report on sizes.
pub open spec fn size_closing(page: Page) -> Seq<char> {
    text::decimal(page.matched) + " matched cases; "@ + text::decimal(page.changed)
        + " changed. Negative differences mean smaller models. P nnz counts both symmetric halves.\n"@
}

pub open spec fn table_part(page: Page, kind: Kind) -> Seq<char> {
    if page.rows.len() > 0 {
        rounded(case_headings(kind), page.rows) + "\n"@
    } else {
        Seq::empty()
    }
}

pub open spec fn last_line(page: Page) -> Seq<char> {
    text::decimal(page.issues.len()) + " unmatched or invalid cases.\n"@
}

impl<
    S: Fn(&Vec<u64>) -> (Real, String),
    D: Fn(Real) -> String,
    R: Fn(Real, Real) -> String,
    P: Fn(Real, Real) -> Real,
> Clock<S, D, R, P> {
    /// The row of one rule.
    pub open spec fn rule_row(&self, t: Sum, color: bool) -> Seq<Seq<char>> {
        seq![
            t.rule,
            text::decimal(t.cases),
            duration_of(self.duration, t.first),
            duration_of(self.duration, t.second),
            painted(self.relative(t.first, t.second), shade(t.first, t.second), color),
        ]
    }

    pub open spec fn rule_rows(&self, list: Seq<Sum>, color: bool) -> Seq<Seq<Seq<char>>> {
        Seq::new(list.len(), |k: int| self.rule_row(list[k], color))
    }

    /// The lines after the tables of a report on timings.
    pub open spec fn time_closing(&self, page: Page, color: bool) -> Seq<char> {
        "Sum of per-problem medians, grouped by rule (matching outcomes only):\n"@ + rounded(
            rule_headings(),
            self.rule_rows(page.totals, color),
        ) + "\n"@ + text::decimal(page.matched)
            + " matched cases. Ranges show trial variability, not confidence intervals. Changes are descriptive, not significance tests.\n"@
    }

    pub open spec fn page(&self, old_run: Run, new_run: Run, color: bool) -> Page {
        self.read(blank(), old_run, new_run, old_run.cases@, new_run.cases@, color)
    }

    /// The report on two runs.
    pub open spec fn reported(&self, old_run: Run, new_run: Run, color: bool) -> Seq<char> {
        let issues = incompatibilities(old_run, new_run);
        let page = self.page(old_run, new_run, color);
        if issues.len() > 0 {
            header(old_run, new_run) + issue_lines(issues, color)
        } else if old_run.cases@.len() == 0 && new_run.cases@.len() == 0 {
            header(old_run, new_run) + "No cases to compare.\n"@
        } else {
            header(old_run, new_run) + table_part(page, old_run.metadata.kind) + (
            if old_run.metadata.kind == Kind::Time {
                self.time_closing(page, color)
            } else {
                size_closing(page)
            }) + issue_lines(page.issues, color) + last_line(page)
        }
    }

    /// Whether something kept the runs, or one of their cases, from being
    /// compared.
    pub open spec fn flagged(&self, old_run: Run, new_run: Run, color: bool) -> bool {
        ||| incompatibilities(old_run, new_run).len() > 0
        ||| old_run.cases@.len() == 0 && new_run.cases@.len() == 0
        ||| self.page(old_run, new_run, color).issues.len() > 0
    }

    fn gather(&self, old_run: &Run, new_run: &Run, color: bool) -> (book: Book)
        requires
            self.wf(),
            old_run.metadata.kind == new_run.metadata.kind,
            old_run.cases@.len() + new_run.cases@.len() < usize::MAX,
        ensures
            book@ == self.page(*old_run, *new_run, color),
    {
        let mut book = Book {
            issues: Vec::new(),
            rows: Vec::new(),
            matched: 0,
            changed: 0,
            totals: Vec::new(),
        };
        let ghost a = old_run.cases@;
        let ghost b = new_run.cases@;
        proof {
            assert(book@.issues =~= blank().issues);
            assert(book@.rows =~= blank().rows);
            assert(book@.totals =~= blank().totals);
            assert(a.skip(0) =~= a);
            assert(b.skip(0) =~= b);
        }
        let mut i: usize = 0;
        let mut j: usize = 0;
        while i < old_run.cases.len() || j < new_run.cases.len()
            invariant
                self.wf(),
                old_run.metadata.kind == new_run.metadata.kind,
                a == old_run.cases@,
                b == new_run.cases@,
                a.len() + b.len() < usize::MAX,
                i <= a.len(),
                j <= b.len(),
                book.bounded((i + j) as nat),
                self.read(
                    book@,
                    *old_run,
                    *new_run,
                    a.skip(i as int),
                    b.skip(j as int),
                    color,
                ) == self.page(*old_run, *new_run, color),
            decreases a.len() - i + b.len() - j,
        {
            let ghost sa = a.skip(i as int);
            let ghost sb = b.skip(j as int);
            proof {
                if i < a.len() {
                    assert(sa[0] == a[i as int]);
                    assert(sa.skip(1) =~= a.skip(i + 1));
                }
                if j < b.len() {
                    assert(sb[0] == b[j as int]);
                    assert(sb.skip(1) =~= b.skip(j + 1));
                }
                strings::order_is_total(
                    if i < a.len() {
                        a[i as int].0@
                    } else {
                        Seq::empty()
                    },
                    if j < b.len() {
                        b[j as int].0@
                    } else {
                        Seq::empty()
                    },
                );
            }
            let in_a = j >= new_run.cases.len() || (i < old_run.cases.len() && !strings::before(
                new_run.cases[j].0.as_str(),
                old_run.cases[i].0.as_str(),
            ));
            let in_b = i >= old_run.cases.len() || (j < new_run.cases.len() && !strings::before(
                old_run.cases[i].0.as_str(),
                new_run.cases[j].0.as_str(),
            ));
            let id: &str = if in_a {
                old_run.cases[i].0.as_str()
            } else {
                new_run.cases[j].0.as_str()
            };
            let ca: Option<&Case> = if in_a {
                Some(&old_run.cases[i].1)
            } else {
                None
            };
            let cb: Option<&Case> = if in_b {
                Some(&new_run.cases[j].1)
            } else {
                None
            };
            self.step(&mut book, old_run, new_run, id, ca, cb, color, Ghost((i + j) as nat));
            if in_a {
                i = i + 1;
            }
            if in_b {
                j = j + 1;
            }
        }
        book
    }

    fn rule_table(&self, list: &Vec<Total>, color: bool) -> (rows: Vec<Vec<String>>)
        requires
            self.wf(),
        ensures
            strings::grid(rows@) == self.rule_rows(totals(list@), color),
    {
        let ghost goal = self.rule_rows(totals(list@), color);
        let mut rows: Vec<Vec<String>> = Vec::new();
        let mut k: usize = 0;
        while k < list.len()
            invariant
                k <= list@.len(),
                self.wf(),
                goal == self.rule_rows(totals(list@), color),
                rows@.len() == k,
                forall|i: int| 0 <= i < k ==> strings::strings((#[trigger] rows@[i])@) == goal[i],
            decreases list@.len() - k,
        {
            let t = &list[k];
            let mut row: Vec<String> = Vec::new();
            row.push(strings::copy(t.rule.as_str()));
            let n = text::number(t.cases as u128);
            row.push(text::to_text(&n));
            row.push((self.duration)(t.first));
            row.push((self.duration)(t.second));
            let rate = self.percent(t.first, t.second);
            row.push(paint(rate.as_str(), shade_of(t.first, t.second), color));
            assert(strings::strings(row@) =~= self.rule_row(list@[k as int]@, color));
            rows.push(row);
            k = k + 1;
        }
        assert(strings::grid(rows@) =~= goal);
        rows
    }

    fn put_closing(&self, out: &mut Vec<char>, book: &Book, kind: Kind, color: bool)
        requires
            self.wf(),
        ensures
            final(out)@ == old(out)@ + (if kind == Kind::Time {
                self.time_closing(book@, color)
            } else {
                size_closing(book@)
            }),
    {
        let ghost start = out@;
        if kind == Kind::Time {
            text::put(
                out,
                "Sum of per-problem medians, grouped by rule (matching outcomes only):\n",
            );
            let rows = self.rule_table(&book.totals, color);
            let cells = five("Rule", "Cases", "First", "Second", "Change");
            let body = table(&cells, &rows);
            text::put(out, body.as_str());
            text::put(out, "\n");
            let n = text::number(book.matched as u128);
            text::put_all(out, &n);
            text::put(
                out,
                " matched cases. Ranges show trial variability, not confidence intervals. Changes are descriptive, not significance tests.\n",
            );
            assert(out@ =~= start + self.time_closing(book@, color));
        } else {
            let n = text::number(book.matched as u128);
            text::put_all(out, &n);
            text::put(out, " matched cases; ");
            let n = text::number(book.changed as u128);
            text::put_all(out, &n);
            text::put(
                out,
                " changed. Negative differences mean smaller models. P nnz counts both symmetric halves.\n",
            );
            assert(out@ =~= start + size_closing(book@));
        }
    }

    /// The report on two runs, and whether anything in it needs attention.
    pub fn render(&self, old_run: &Run, new_run: &Run, color: bool) -> (r: (String, bool))
        requires
            self.wf(),
            old_run.cases@.len() + new_run.cases@.len() < usize::MAX,
        ensures
            r.0@ == self.reported(*old_run, *new_run, color),
            r.1 == self.flagged(*old_run, *new_run, color),
    {
        let mut out = put_header(old_run, new_run);
        let issues = incompatible(old_run, new_run);
        assert(strings::strings(issues@).len() == issues@.len());
        if issues.len() > 0 {
            put_issues(&mut out, &issues, color);
            return (text::to_text(&out), true);
        }
        if old_run.cases.len() == 0 && new_run.cases.len() == 0 {
            text::put(&mut out, "No cases to compare.\n");
            return (text::to_text(&out), true);
        }
        let kind = old_run.metadata.kind;
        let book = self.gather(old_run, new_run, color);
        let ghost page = self.page(*old_run, *new_run, color);
        let ghost first = out@;
        assert(page.rows.len() == book.rows@.len());
        if book.rows.len() > 0 {
            let cells = if kind == Kind::Time {
                five(
                    "Case",
                    "First: median [p10–p90]",
                    "Second: median [p10–p90]",
                    "Change",
                    "Note",
                )
            } else {
                five("Case", "Metric", "First: remaining", "Second: remaining", "Difference")
            };
            let body = table(&cells, &book.rows);
            text::put(&mut out, body.as_str());
            text::put(&mut out, "\n");
        }
        assert(out@ =~= first + table_part(page, kind));
        self.put_closing(&mut out, &book, kind, color);
        put_issues(&mut out, &book.issues, color);
        let ghost before = out@;
        let n = text::number(book.issues.len() as u128);
        text::put_all(&mut out, &n);
        text::put(&mut out, " unmatched or invalid cases.\n");
        assert(page.issues.len() == book.issues@.len());
        assert(out@ =~= before + last_line(page));
        (text::to_text(&out), book.issues.len() > 0)
    }
}

/// Runs that differ in settings or kind, or of which one is incomplete, are
/// never compared case by case.
pub proof fn incompatible_runs_are_flagged(old_run: Run, new_run: Run)
    requires
        !old_run.complete || !new_run.complete || old_run.metadata.settings@
            != new_run.metadata.settings@ || old_run.metadata.kind != new_run.metadata.kind,
    ensures
        incompatibilities(old_run, new_run).len() > 0,
{
}

} // verus!
