//! A comparison as a report, in plain text or in Markdown.

use crate::compare::{self, Change, Comparison};
use crate::json::{self, Tree, Value};
use crate::strings;
use crate::sums::Sums;
use crate::table;
use crate::text;
use vstd::prelude::*;

verus! {

#[derive(Clone, Copy, Debug, PartialEq, Eq, Structural)]
pub enum Format {
    Text,
    Markdown,
}

/// An integer in decimal notation.
pub open spec fn plain(n: int) -> Seq<char> {
    if n < 0 {
        "-"@ + text::decimal((-n) as nat)
    } else {
        text::decimal(n as nat)
    }
}

/// A difference, with its sign where it is positive.
pub open spec fn with_sign(n: int) -> Seq<char> {
    if n > 0 {
        "+"@ + text::decimal(n as nat)
    } else {
        plain(n)
    }
}

fn magnitude(n: i128) -> (m: u128)
    ensures
        m == if n < 0 {
            -(n as int)
        } else {
            n as int
        },
{
    if n < 0 {
        (-(n + 1)) as u128 + 1
    } else {
        n as u128
    }
}

/// How far a number lies above another one.
fn gap(low: i128, high: i128) -> (m: u128)
    requires
        low <= high,
    ensures
        m == high - low,
{
    if low < 0 && high >= 0 {
        magnitude(low) + magnitude(high)
    } else {
        (high - low) as u128
    }
}

fn integer(n: i128) -> (out: Vec<char>)
    ensures
        out@ == plain(n as int),
{
    let digits = text::number(magnitude(n));
    if n < 0 {
        let mut out = text::to_chars("-");
        text::put_all(&mut out, &digits);
        out
    } else {
        digits
    }
}

/// The difference between two numbers, with its sign.
fn change(base: i128, head: i128) -> (out: Vec<char>)
    ensures
        out@ == with_sign(head - base),
{
    if head > base {
        let digits = text::number(gap(base, head));
        let mut out = text::to_chars("+");
        text::put_all(&mut out, &digits);
        out
    } else if head == base {
        text::number(0)
    } else {
        let digits = text::number(gap(head, base));
        let mut out = text::to_chars("-");
        text::put_all(&mut out, &digits);
        out
    }
}

pub fn signed(delta: i128) -> (out: String)
    ensures
        out@ == with_sign(delta as int),
{
    let out = change(0, delta);
    text::to_text(&out)
}

/// The text that a formatter gives two numbers.
pub open spec fn rated<F: Fn(i128, i128) -> String>(f: F, base: i128, head: i128) -> Seq<char> {
    (choose|r: String| call_ensures(f, (base, head), r))@
}

/// The formatter accepts any numbers and depends on nothing else.
pub open spec fn rates<F: Fn(i128, i128) -> String>(f: F) -> bool {
    &&& forall|b: i128, h: i128| #[trigger] call_requires(f, (b, h))
    &&& forall|b: i128, h: i128, r: String| #[trigger]
        call_ensures(f, (b, h), r) ==> r@ == rated(f, b, h)
}

/// The relative change between two numbers: empty where there is none, and
/// `new` from zero.
pub open spec fn relative<F: Fn(i128, i128) -> String>(f: F, base: i128, head: i128) -> Seq<char> {
    if base == head {
        Seq::empty()
    } else if base == 0 {
        "new"@
    } else {
        rated(f, base, head)
    }
}

pub fn percent<F: Fn(i128, i128) -> String>(base: i128, head: i128, rate: &F) -> (out: String)
    requires
        rates(*rate),
    ensures
        out@ == relative(*rate, base, head),
{
    if base == head {
        let out = String::new();
        assert(out@ =~= Seq::<char>::empty());
        out
    } else if base == 0 {
        strings::copy("new")
    } else {
        rate(base, head)
    }
}

/// One row of a table of sums.
pub open spec fn total_row<F: Fn(i128, i128) -> String>(
    f: F,
    name: Seq<char>,
    base: i128,
    head: i128,
) -> Seq<Seq<char>> {
    seq![name, plain(base as int), plain(head as int), with_sign(head - base), relative(f, base, head)]
}

/// The rows of two lists of sums, by name. A name that one side lacks has the
/// sum zero there. Sums that agree are left out, unless all are asked for.
pub open spec fn total_rows<F: Fn(i128, i128) -> String>(
    f: F,
    base: Seq<(Seq<char>, int)>,
    head: Seq<(Seq<char>, int)>,
    all: bool,
) -> Seq<Seq<Seq<char>>>
    decreases base.len() + head.len(),
{
    if base.len() == 0 && head.len() == 0 {
        Seq::empty()
    } else {
        let in_base = head.len() == 0 || base.len() > 0 && !strings::precedes(
            head[0].0,
            base[0].0,
        );
        let in_head = base.len() == 0 || head.len() > 0 && !strings::precedes(
            base[0].0,
            head[0].0,
        );
        let b = if in_base {
            base[0].1 as i128
        } else {
            0
        };
        let h = if in_head {
            head[0].1 as i128
        } else {
            0
        };
        let name = if in_base {
            base[0].0
        } else {
            head[0].0
        };
        let here = if all || b != h {
            seq![total_row(f, name, b, h)]
        } else {
            Seq::empty()
        };
        here + if in_base && in_head {
            total_rows(f, base.skip(1), head.skip(1), all)
        } else if in_base {
            total_rows(f, base.skip(1), head, all)
        } else if in_head {
            total_rows(f, base, head.skip(1), all)
        } else {
            Seq::empty()
        }
    }
}

fn totals<F: Fn(i128, i128) -> String>(base: &Sums, head: &Sums, all: bool, rate: &F) -> (rows: Vec<
    Vec<String>,
>)
    requires
        base.wf(),
        head.wf(),
        rates(*rate),
    ensures
        strings::grid(rows@) == total_rows(*rate, base.pairs(), head.pairs(), all),
{
    let ghost b = base.pairs();
    let ghost h = head.pairs();
    let ghost goal = total_rows(*rate, b, h, all);
    let mut rows: Vec<Vec<String>> = Vec::new();
    let mut i: usize = 0;
    let mut j: usize = 0;
    proof {
        assert(b.skip(0) =~= b);
        assert(h.skip(0) =~= h);
        assert(strings::grid(rows@) + goal =~= goal);
    }
    while i < base.names.len() || j < head.names.len()
        invariant
            i <= base.names@.len(),
            j <= head.names@.len(),
            base.wf(),
            head.wf(),
            rates(*rate),
            b == base.pairs(),
            h == head.pairs(),
            strings::grid(rows@) + total_rows(*rate, b.skip(i as int), h.skip(j as int), all)
                == goal,
        decreases base.names@.len() - i + head.names@.len() - j,
    {
        let ghost bs = b.skip(i as int);
        let ghost hs = h.skip(j as int);
        let ghost before = strings::grid(rows@);
        proof {
            if i < base.names@.len() {
                assert(bs[0] == b[i as int]);
                assert(bs.skip(1) =~= b.skip(i + 1));
            }
            if j < head.names@.len() {
                assert(hs[0] == h[j as int]);
                assert(hs.skip(1) =~= h.skip(j + 1));
            }
            strings::order_is_total(
                if i < base.names@.len() {
                    b[i as int].0
                } else {
                    Seq::empty()
                },
                if j < head.names@.len() {
                    h[j as int].0
                } else {
                    Seq::empty()
                },
            );
        }
        let in_base = j >= head.names.len() || (i < base.names.len() && !strings::before(
            head.names[j].as_str(),
            base.names[i].as_str(),
        ));
        let in_head = i >= base.names.len() || (j < head.names.len() && !strings::before(
            base.names[i].as_str(),
            head.names[j].as_str(),
        ));
        assert(in_base || in_head);
        let bv: i128 = if in_base {
            base.values[i]
        } else {
            0
        };
        let hv: i128 = if in_head {
            head.values[j]
        } else {
            0
        };
        let ghost name = if in_base {
            bs[0].0
        } else {
            hs[0].0
        };
        let ghost here = if all || bv != hv {
            seq![total_row(*rate, name, bv, hv)]
        } else {
            Seq::empty()
        };
        if all || bv != hv {
            let mut row: Vec<String> = Vec::new();
            row.push(
                if in_base {
                    strings::copy(base.names[i].as_str())
                } else {
                    strings::copy(head.names[j].as_str())
                },
            );
            let left = integer(bv);
            row.push(text::to_text(&left));
            let right = integer(hv);
            row.push(text::to_text(&right));
            let delta = change(bv, hv);
            row.push(text::to_text(&delta));
            row.push(percent(bv, hv, rate));
            assert(strings::strings(row@) =~= total_row(*rate, name, bv, hv));
            rows.push(row);
        }
        if in_base {
            i = i + 1;
        }
        if in_head {
            j = j + 1;
        }
        proof {
            let rest = total_rows(*rate, b.skip(i as int), h.skip(j as int), all);
            assert(strings::grid(rows@) =~= before + here);
            assert(total_rows(*rate, bs, hs, all) == here + rest);
            assert(strings::grid(rows@) + rest =~= before + (here + rest));
        }
    }
    assert(strings::grid(rows@) + Seq::<Seq<Seq<char>>>::empty() =~= strings::grid(rows@));
    rows
}

/// A value as a cell shows it: a text as it is, anything else as JSON.
pub open spec fn shown(t: Tree) -> Seq<char> {
    match t {
        Tree::Text(s) => s,
        _ => json::written(t),
    }
}

pub fn compact(value: &Value) -> (out: String)
    ensures
        out@ == shown(json::tree(*value)),
{
    match value {
        Value::Text(s) => strings::copy(s.as_str()),
        _ => {
            let mut out: Vec<char> = Vec::new();
            json::write(&mut out, value);
            assert(out@ =~= shown(json::tree(*value)));
            text::to_text(&out)
        },
    }
}

/// A number of 64 bits with its sign.
pub open spec fn is_short(n: i128) -> bool {
    i64::MIN <= n <= i64::MAX
}

pub open spec fn change_text(base: Tree, head: Tree) -> Seq<char> {
    match (base, head) {
        (Tree::Number(Some(b), _), Tree::Number(Some(h), _)) => if is_short(b) && is_short(h) {
            with_sign(h - b)
        } else {
            Seq::empty()
        },
        _ => Seq::empty(),
    }
}

/// One row of the table of changed instances.
pub open spec fn change_row(c: Change) -> Seq<Seq<char>> {
    seq![c.instance, c.path, shown(c.base), shown(c.head), change_text(c.base, c.head)]
}

/// The rows of the deltas outside the work counters.
pub open spec fn change_rows(deltas: Seq<Change>) -> Seq<Seq<Seq<char>>>
    decreases deltas.len(),
{
    if deltas.len() == 0 {
        Seq::empty()
    } else {
        let before = change_rows(deltas.drop_last());
        if compare::under_work(deltas.last().path) {
            before
        } else {
            before.push(change_row(deltas.last()))
        }
    }
}

fn integer_of(value: &Value) -> (r: Option<i128>)
    ensures
        match json::tree(*value) {
            Tree::Number(n, _) => r == n,
            _ => r is None,
        },
{
    match value {
        Value::Number(n) => n.integer,
        _ => None,
    }
}

fn change_of(base: &Value, head: &Value) -> (out: String)
    ensures
        out@ == change_text(json::tree(*base), json::tree(*head)),
{
    match (integer_of(base), integer_of(head)) {
        (Some(b), Some(h)) if i64::MIN as i128 <= b && b <= i64::MAX as i128 && i64::MIN as i128
            <= h && h <= i64::MAX as i128 => {
            let out = change(b, h);
            text::to_text(&out)
        },
        _ => {
            let out = String::new();
            assert(out@ =~= Seq::<char>::empty());
            out
        },
    }
}

/// The instances with deltas, all under the work counters.
pub open spec fn worked(deltas: Seq<Change>, changed: Set<Seq<char>>) -> Set<Seq<char>>
    decreases deltas.len(),
{
    if deltas.len() == 0 {
        Set::empty()
    } else {
        let before = worked(deltas.drop_last(), changed);
        let last = deltas.last();
        if compare::under_work(last.path) && !changed.contains(last.instance) {
            before.insert(last.instance)
        } else {
            before
        }
    }
}

/// A line with a list of names, where there are any.
pub open spec fn listed(label: Seq<char>, list: Seq<Seq<char>>) -> Seq<char> {
    if list.len() == 0 {
        Seq::empty()
    } else {
        label + ": "@ + strings::joined(list, ", "@) + ".\n"@
    }
}

fn put_list(out: &mut Vec<char>, label: &str, list: &Vec<String>)
    ensures
        final(out)@ == old(out)@ + listed(label@, strings::strings(list@)),
{
    let ghost start = out@;
    if list.len() > 0 {
        text::put(out, label);
        text::put(out, ": ");
        let body = strings::join(list, ", ");
        text::put_all(out, &body);
        text::put(out, ".\n");
    }
    assert(out@ =~= start + listed(label@, strings::strings(list@)));
}

/// The warning about instances that reached the time limit.
pub open spec fn warning(list: Seq<Seq<char>>) -> Seq<char> {
    if list.len() == 0 {
        Seq::empty()
    } else {
        "Warning: "@ + text::decimal(list.len())
            + " instances reached the time limit and are machine dependent: "@ + strings::joined(
            list,
            ", "@,
        ) + ".\n"@
    }
}

fn put_warning(out: &mut Vec<char>, list: &Vec<String>)
    ensures
        final(out)@ == old(out)@ + warning(strings::strings(list@)),
{
    let ghost start = out@;
    if list.len() > 0 {
        text::put(out, "Warning: ");
        let n = text::number(list.len() as u128);
        text::put_all(out, &n);
        text::put(out, " instances reached the time limit and are machine dependent: ");
        let body = strings::join(list, ", ");
        text::put_all(out, &body);
        text::put(out, ".\n");
    }
    assert(out@ =~= start + warning(strings::strings(list@)));
}

/// Each field with the number of instances that have it on one side only.
pub open spec fn field_items(pairs: Seq<(Seq<char>, int)>) -> Seq<Seq<char>> {
    Seq::new(pairs.len(), |k: int| pairs[k].0 + " ("@ + plain(pairs[k].1) + ")"@)
}

pub open spec fn drift(label: Seq<char>, pairs: Seq<(Seq<char>, int)>) -> Seq<char> {
    if pairs.len() == 0 {
        Seq::empty()
    } else {
        label + ", not compared: "@ + strings::joined(field_items(pairs), ", "@) + ".\n"@
    }
}

fn put_fields(out: &mut Vec<char>, label: &str, fields: &Sums)
    requires
        fields.wf(),
    ensures
        final(out)@ == old(out)@ + drift(label@, fields.pairs()),
{
    let ghost start = out@;
    if fields.names.len() > 0 {
        let mut items: Vec<String> = Vec::new();
        let mut k: usize = 0;
        while k < fields.names.len()
            invariant
                k <= fields.names@.len(),
                fields.wf(),
                items@.len() == k,
                forall|i: int|
                    0 <= i < k ==> (#[trigger] items@[i])@ == field_items(fields.pairs())[i],
            decreases fields.names@.len() - k,
        {
            let mut item = text::to_chars(fields.names[k].as_str());
            text::put(&mut item, " (");
            let n = integer(fields.values[k]);
            text::put_all(&mut item, &n);
            text::put(&mut item, ")");
            items.push(text::to_text(&item));
            k = k + 1;
        }
        assert(strings::strings(items@) =~= field_items(fields.pairs()));
        text::put(out, label);
        text::put(out, ", not compared: ");
        let body = strings::join(&items, ", ");
        text::put_all(out, &body);
        text::put(out, ".\n");
    }
    assert(out@ =~= start + drift(label@, fields.pairs()));
}

/// The title of a section.
pub open spec fn title(markdown: bool, s: Seq<char>) -> Seq<char> {
    if markdown {
        "\n### "@ + s + "\n\n"@
    } else {
        "\n"@ + s + "\n"@
    }
}

fn put_title(out: &mut Vec<char>, markdown: bool, s: &str)
    ensures
        final(out)@ == old(out)@ + title(markdown, s@),
{
    let ghost start = out@;
    if markdown {
        text::put(out, "\n### ");
        text::put(out, s);
        text::put(out, "\n\n");
    } else {
        text::put(out, "\n");
        text::put(out, s);
        text::put(out, "\n");
    }
    assert(out@ =~= start + title(markdown, s@));
}

pub open spec fn headings(first: Seq<char>) -> Seq<Seq<char>> {
    seq![first, "base"@, "head"@, "delta"@, "change"@]
}

fn heading_cells(first: &str) -> (out: Vec<String>)
    ensures
        strings::strings(out@) == headings(first@),
{
    let mut columns: Vec<String> = Vec::new();
    columns.push(String::new());
    columns.push(strings::copy("base"));
    columns.push(strings::copy("head"));
    columns.push(strings::copy("delta"));
    columns.push(strings::copy("change"));
    let out = table::with_first(&columns, first);
    assert(strings::strings(out@) =~= headings(first@));
    out
}

/// A section with a table of sums.
pub open spec fn sums_section<F: Fn(i128, i128) -> String>(
    f: F,
    markdown: bool,
    name: Seq<char>,
    first: Seq<char>,
    base: Sums,
    head: Sums,
    all: bool,
) -> Seq<char> {
    let rows = total_rows(f, base.pairs(), head.pairs(), all);
    if all || rows.len() > 0 {
        title(markdown, name) + table::tabulated(markdown, headings(first), rows)
    } else {
        Seq::empty()
    }
}

fn put_sums<F: Fn(i128, i128) -> String>(
    out: &mut Vec<char>,
    markdown: bool,
    name: &str,
    first: &str,
    base: &Sums,
    head: &Sums,
    all: bool,
    rate: &F,
)
    requires
        base.wf(),
        head.wf(),
        rates(*rate),
    ensures
        final(out)@ == old(out)@ + sums_section(*rate, markdown, name@, first@, *base, *head, all),
{
    let ghost start = out@;
    let rows = totals(base, head, all, rate);
    assert(strings::grid(rows@).len() == rows@.len());
    if all || rows.len() > 0 {
        put_title(out, markdown, name);
        let cells = heading_cells(first);
        let body = table::table(markdown, &cells, &rows);
        text::put_all(out, &body);
    }
    assert(out@ =~= start + sums_section(*rate, markdown, name@, first@, *base, *head, all));
}

pub open spec fn change_headings() -> Seq<Seq<char>> {
    seq!["instance"@, "field"@, "base"@, "head"@, "delta"@]
}

/// The section with the changed instances, capped.
pub open spec fn changes_section(markdown: bool, deltas: Seq<Change>, max_rows: nat) -> Seq<char> {
    let rows = change_rows(deltas);
    if rows.len() > 0 {
        title(markdown, "Changed instances"@) + table::shortened(
            markdown,
            change_headings(),
            rows,
            max_rows,
        )
    } else {
        Seq::empty()
    }
}

/// The verdict, as a heading.
pub open spec fn verdict(markdown: bool, different: bool) -> Seq<char> {
    let word = if different {
        "Reductions changed"@
    } else {
        "No reduction changes"@
    };
    if markdown {
        "## "@ + word + "\n\n"@
    } else {
        word + ".\n"@
    }
}

/// How many instances were compared, and how many differ.
pub open spec fn counts_line(instances: nat, changed: nat, worked: nat) -> Seq<char> {
    "Compared "@ + text::decimal(instances) + " instances: "@ + text::decimal(changed)
        + " with status, outcome, size, or reduction changes, "@ + text::decimal(worked)
        + " with work-only changes.\n"@
}

fn put_verdict(out: &mut Vec<char>, markdown: bool, different: bool)
    ensures
        final(out)@ == old(out)@ + verdict(markdown, different),
{
    let ghost start = out@;
    let word = if different {
        "Reductions changed"
    } else {
        "No reduction changes"
    };
    if markdown {
        text::put(out, "## ");
        text::put(out, word);
        text::put(out, "\n\n");
    } else {
        text::put(out, word);
        text::put(out, ".\n");
    }
    assert(out@ =~= start + verdict(markdown, different));
}

fn put_counts(out: &mut Vec<char>, instances: usize, changed: usize, worked: usize)
    ensures
        final(out)@ == old(out)@ + counts_line(instances as nat, changed as nat, worked as nat),
{
    let ghost start = out@;
    text::put(out, "Compared ");
    let n = text::number(instances as u128);
    text::put_all(out, &n);
    text::put(out, " instances: ");
    let n = text::number(changed as u128);
    text::put_all(out, &n);
    text::put(out, " with status, outcome, size, or reduction changes, ");
    let n = text::number(worked as u128);
    text::put_all(out, &n);
    text::put(out, " with work-only changes.\n");
    assert(out@ =~= start + counts_line(instances as nat, changed as nat, worked as nat));
}

/// An ascending list is as long as the set of its members.
proof fn ascending_length(list: Seq<Seq<char>>)
    requires
        strings::ascending(list),
    ensures
        list.to_set().len() == list.len(),
{
    strings::ascending_is_distinct(list);
    list.unique_seq_to_set();
}

impl Comparison {
    /// The lines before the tables.
    pub open spec fn summary(&self, markdown: bool) -> Seq<char> {
        let deltas = compare::changes(self.deltas@);
        let changed = compare::changed(deltas);
        verdict(
            markdown,
            compare::differs(
                strings::strings(self.only_base@),
                strings::strings(self.only_head@),
                deltas,
            ),
        ) + counts_line(self.instances as nat, changed.len(), worked(deltas, changed).len())
            + listed("Only in base"@, strings::strings(self.only_base@)) + listed(
            "Only in head"@,
            strings::strings(self.only_head@),
        ) + warning(strings::strings(self.time_limited@)) + drift(
            "Fields only in base"@,
            self.fields_only_base.pairs(),
        ) + drift("Fields only in head"@, self.fields_only_head.pairs())
    }

    /// The whole report.
    pub open spec fn rendered<F: Fn(i128, i128) -> String>(
        &self,
        format: Format,
        max_rows: nat,
        f: F,
    ) -> Seq<char> {
        let md = format == Format::Markdown;
        self.summary(md) + sums_section(
            f,
            md,
            "Outcomes"@,
            "outcome"@,
            self.base.outcomes,
            self.head.outcomes,
            false,
        ) + sums_section(
            f,
            md,
            "Size after presolve, summed over instances presolved on both sides"@,
            "field"@,
            self.base.after,
            self.head.after,
            true,
        ) + sums_section(
            f,
            md,
            "Reductions by rule and kind, summed over the corpus"@,
            "rule.kind"@,
            self.base.reductions,
            self.head.reductions,
            false,
        ) + changes_section(md, compare::changes(self.deltas@), max_rows) + sums_section(
            f,
            md,
            "Work counters, informational, summed over the corpus"@,
            "field"@,
            self.base.work,
            self.head.work,
            false,
        )
    }

    fn work_only(&self, changed: &Vec<String>) -> (out: Vec<String>)
        requires
            strings::ascending(strings::strings(changed@)),
        ensures
            strings::ascending(strings::strings(out@)),
            strings::strings(out@).to_set() == worked(
                compare::changes(self.deltas@),
                strings::strings(changed@).to_set(),
            ),
    {
        let ghost all = compare::changes(self.deltas@);
        let ghost set = strings::strings(changed@).to_set();
        let mut out: Vec<String> = Vec::new();
        let mut k: usize = 0;
        proof {
            assert(all.take(0) =~= Seq::<Change>::empty());
            assert(strings::strings(out@).to_set() =~= Set::<Seq<char>>::empty());
        }
        while k < self.deltas.len()
            invariant
                k <= self.deltas@.len(),
                all == compare::changes(self.deltas@),
                set == strings::strings(changed@).to_set(),
                strings::ascending(strings::strings(changed@)),
                strings::ascending(strings::strings(out@)),
                strings::strings(out@).to_set() == worked(all.take(k as int), set),
            decreases self.deltas@.len() - k,
        {
            proof {
                assert(all.take(k + 1).drop_last() =~= all.take(k as int));
                assert(all.take(k + 1).last() == self.deltas@[k as int]@);
            }
            if self.deltas[k].is_work() {
                let (found, at): (bool, usize) = strings::place(
                    changed,
                    self.deltas[k].instance.as_str(),
                );
                if !found {
                    strings::insert(&mut out, self.deltas[k].instance.as_str());
                }
            }
            k = k + 1;
        }
        assert(all.take(k as int) =~= all);
        out
    }

    fn instance_rows(&self) -> (rows: Vec<Vec<String>>)
        ensures
            strings::grid(rows@) == change_rows(compare::changes(self.deltas@)),
    {
        let ghost all = compare::changes(self.deltas@);
        let mut rows: Vec<Vec<String>> = Vec::new();
        let mut k: usize = 0;
        proof {
            assert(all.take(0) =~= Seq::<Change>::empty());
            assert(strings::grid(rows@) =~= Seq::<Seq<Seq<char>>>::empty());
        }
        while k < self.deltas.len()
            invariant
                k <= self.deltas@.len(),
                all == compare::changes(self.deltas@),
                strings::grid(rows@) == change_rows(all.take(k as int)),
            decreases self.deltas@.len() - k,
        {
            let ghost before = strings::grid(rows@);
            let ghost c = self.deltas@[k as int]@;
            proof {
                assert(all.take(k + 1).drop_last() =~= all.take(k as int));
                assert(all.take(k + 1).last() == c);
            }
            if !self.deltas[k].is_work() {
                let d = &self.deltas[k];
                let mut row: Vec<String> = Vec::new();
                row.push(strings::copy(d.instance.as_str()));
                row.push(strings::copy(d.path.as_str()));
                row.push(compact(&d.base));
                row.push(compact(&d.head));
                row.push(change_of(&d.base, &d.head));
                assert(strings::strings(row@) =~= change_row(c));
                rows.push(row);
                assert(strings::grid(rows@) =~= before.push(change_row(c)));
            }
            k = k + 1;
        }
        assert(all.take(k as int) =~= all);
        rows
    }

    fn put_summary(&self, out: &mut Vec<char>, markdown: bool)
        requires
            self.wf(),
            old(out)@.len() == 0,
        ensures
            final(out)@ == self.summary(markdown),
    {
        let changed = self.changed_instances();
        let work = self.work_only(&changed);
        proof {
            ascending_length(strings::strings(changed@));
            ascending_length(strings::strings(work@));
        }
        put_verdict(out, markdown, self.has_changes());
        assert(out@ =~= verdict(
            markdown,
            compare::differs(
                strings::strings(self.only_base@),
                strings::strings(self.only_head@),
                compare::changes(self.deltas@),
            ),
        ));
        put_counts(out, self.instances, changed.len(), work.len());
        put_list(out, "Only in base", &self.only_base);
        put_list(out, "Only in head", &self.only_head);
        put_warning(out, &self.time_limited);
        put_fields(out, "Fields only in base", &self.fields_only_base);
        put_fields(out, "Fields only in head", &self.fields_only_head);
    }

    fn put_changes(&self, out: &mut Vec<char>, markdown: bool, max_rows: usize)
        ensures
            final(out)@ == old(out)@ + changes_section(
                markdown,
                compare::changes(self.deltas@),
                max_rows as nat,
            ),
    {
        let ghost start = out@;
        let rows = self.instance_rows();
        assert(strings::grid(rows@).len() == rows@.len());
        if rows.len() > 0 {
            put_title(out, markdown, "Changed instances");
            let mut cells: Vec<String> = Vec::new();
            cells.push(strings::copy("instance"));
            cells.push(strings::copy("field"));
            cells.push(strings::copy("base"));
            cells.push(strings::copy("head"));
            cells.push(strings::copy("delta"));
            assert(strings::strings(cells@) =~= change_headings());
            let body = table::capped(markdown, &cells, rows, max_rows);
            text::put_all(out, &body);
        }
        assert(out@ =~= start + changes_section(
            markdown,
            compare::changes(self.deltas@),
            max_rows as nat,
        ));
    }

    /// The comparison as a report. The formatter writes a relative change.
    pub fn render<F: Fn(i128, i128) -> String>(
        &self,
        format: Format,
        max_rows: usize,
        rate: &F,
    ) -> (r: String)
        requires
            self.wf(),
            rates(*rate),
        ensures
            r@ == self.rendered(format, max_rows as nat, *rate),
    {
        let md = format == Format::Markdown;
        let mut out: Vec<char> = Vec::new();
        self.put_summary(&mut out, md);
        put_sums(
            &mut out,
            md,
            "Outcomes",
            "outcome",
            &self.base.outcomes,
            &self.head.outcomes,
            false,
            rate,
        );
        put_sums(
            &mut out,
            md,
            "Size after presolve, summed over instances presolved on both sides",
            "field",
            &self.base.after,
            &self.head.after,
            true,
            rate,
        );
        put_sums(
            &mut out,
            md,
            "Reductions by rule and kind, summed over the corpus",
            "rule.kind",
            &self.base.reductions,
            &self.head.reductions,
            false,
            rate,
        );
        self.put_changes(&mut out, md, max_rows);
        put_sums(
            &mut out,
            md,
            "Work counters, informational, summed over the corpus",
            "field",
            &self.base.work,
            &self.head.work,
            false,
            rate,
        );
        text::to_text(&out)
    }
}

} // verus!
