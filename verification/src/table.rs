//! Tables as aligned text or as Markdown.

use crate::strings;
use crate::text;
use vstd::prelude::*;

verus! {

/// Vertical bars with a backslash before each.
pub open spec fn escaped(s: Seq<char>) -> Seq<char>
    decreases s.len(),
{
    if s.len() == 0 {
        Seq::empty()
    } else if s.last() == '|' {
        escaped(s.drop_last()).push('\\').push('|')
    } else {
        escaped(s.drop_last()).push(s.last())
    }
}

fn escape(cell: &str) -> (out: String)
    ensures
        out@ == escaped(cell@),
{
    let chars = text::to_chars(cell);
    let mut out: Vec<char> = Vec::new();
    let mut k: usize = 0;
    assert(chars@.take(0) =~= Seq::<char>::empty());
    assert(out@ =~= Seq::<char>::empty());
    while k < chars.len()
        invariant
            k <= chars@.len(),
            out@ == escaped(chars@.take(k as int)),
        decreases chars@.len() - k,
    {
        proof {
            assert(chars@.take(k + 1).drop_last() =~= chars@.take(k as int));
            assert(chars@.take(k + 1).last() == chars@[k as int]);
        }
        if chars[k] == '|' {
            out.push('\\');
        }
        out.push(chars[k]);
        k = k + 1;
    }
    assert(chars@.take(k as int) =~= chars@);
    text::to_text(&out)
}

pub open spec fn escaped_cells(row: Seq<Seq<char>>) -> Seq<Seq<char>> {
    Seq::new(row.len(), |k: int| escaped(row[k]))
}

fn escape_cells(row: &Vec<String>) -> (out: Vec<String>)
    ensures
        strings::strings(out@) == escaped_cells(strings::strings(row@)),
{
    let mut out: Vec<String> = Vec::new();
    let mut k: usize = 0;
    while k < row.len()
        invariant
            k <= row@.len(),
            out@.len() == k,
            forall|i: int| 0 <= i < k ==> (#[trigger] out@[i])@ == escaped(row@[i]@),
        decreases row@.len() - k,
    {
        out.push(escape(row[k].as_str()));
        k = k + 1;
    }
    assert(strings::strings(out@) =~= escaped_cells(strings::strings(row@)));
    out
}

/// The alignment marks under a heading: the first column to the left.
pub open spec fn marks(n: nat) -> Seq<Seq<char>> {
    Seq::new(
        n,
        |k: int|
            if k == 0 {
                ":--"@
            } else {
                "--:"@
            },
    )
}

fn mark_cells(n: usize) -> (out: Vec<String>)
    ensures
        strings::strings(out@) == marks(n as nat),
{
    let mut out: Vec<String> = Vec::new();
    let mut k: usize = 0;
    while k < n
        invariant
            k <= n,
            out@.len() == k,
            forall|i: int| 0 <= i < k ==> (#[trigger] out@[i])@ == marks(n as nat)[i],
        decreases n - k,
    {
        out.push(
            if k == 0 {
                strings::copy(":--")
            } else {
                strings::copy("--:")
            },
        );
        k = k + 1;
    }
    assert(strings::strings(out@) =~= marks(n as nat));
    out
}

/// One line of a Markdown table.
pub open spec fn markdown_line(cells: Seq<Seq<char>>) -> Seq<char> {
    "| "@ + strings::joined(cells, " | "@) + " |\n"@
}

fn put_markdown(out: &mut Vec<char>, cells: &Vec<String>)
    ensures
        final(out)@ == old(out)@ + markdown_line(strings::strings(cells@)),
{
    let ghost start = out@;
    text::put(out, "| ");
    let body = strings::join(cells, " | ");
    text::put_all(out, &body);
    text::put(out, " |\n");
    assert(out@ =~= start + markdown_line(strings::strings(cells@)));
}

pub open spec fn markdown_rows(rows: Seq<Seq<Seq<char>>>) -> Seq<char>
    decreases rows.len(),
{
    if rows.len() == 0 {
        Seq::empty()
    } else {
        markdown_rows(rows.drop_last()) + markdown_line(escaped_cells(rows.last()))
    }
}

/// The width of a column: that of its widest cell, heading among them.
pub open spec fn width(headers: Seq<Seq<char>>, rows: Seq<Seq<Seq<char>>>, column: int) -> nat
    decreases rows.len(),
{
    if rows.len() == 0 {
        headers[column].len()
    } else {
        let before = width(headers, rows.drop_last(), column);
        let row = rows.last();
        if column < row.len() && row[column].len() > before {
            row[column].len()
        } else {
            before
        }
    }
}

pub open spec fn spaces(n: nat) -> Seq<char> {
    Seq::new(n, |k: int| ' ')
}

/// A cell filled up to a width: on its right in the first column, on its left
/// in the others.
pub open spec fn padded(cell: Seq<char>, column: int, width: nat) -> Seq<char> {
    let fill = spaces(
        if cell.len() < width {
            (width - cell.len()) as nat
        } else {
            0
        },
    );
    if column == 0 {
        cell + fill
    } else {
        fill + cell
    }
}

pub open spec fn padded_cells(cells: Seq<Seq<char>>, widths: Seq<nat>) -> Seq<Seq<char>> {
    Seq::new(
        if cells.len() < widths.len() {
            cells.len()
        } else {
            widths.len()
        },
        |k: int| padded(cells[k], k, widths[k]),
    )
}

/// One line of an aligned table.
pub open spec fn text_line(cells: Seq<Seq<char>>, widths: Seq<nat>) -> Seq<char> {
    text::trimmed_end(strings::joined(padded_cells(cells, widths), "  "@)) + "\n"@
}

pub open spec fn text_rows(rows: Seq<Seq<Seq<char>>>, widths: Seq<nat>) -> Seq<char>
    decreases rows.len(),
{
    if rows.len() == 0 {
        Seq::empty()
    } else {
        text_rows(rows.drop_last(), widths) + text_line(rows.last(), widths)
    }
}

pub open spec fn widths_of(headers: Seq<Seq<char>>, rows: Seq<Seq<Seq<char>>>) -> Seq<nat> {
    Seq::new(headers.len(), |k: int| width(headers, rows, k))
}

/// A table with the first column left aligned and the rest right aligned.
pub open spec fn tabulated(
    markdown: bool,
    headers: Seq<Seq<char>>,
    rows: Seq<Seq<Seq<char>>>,
) -> Seq<char> {
    if markdown {
        markdown_line(headers) + markdown_line(marks(headers.len())) + markdown_rows(rows)
    } else {
        let widths = widths_of(headers, rows);
        text_line(headers, widths) + text_rows(rows, widths)
    }
}

fn char_count(cell: &str) -> (n: usize)
    ensures
        n == cell@.len(),
{
    let chars = text::to_chars(cell);
    chars.len()
}

fn measure(headers: &Vec<String>, rows: &Vec<Vec<String>>, column: usize) -> (w: usize)
    requires
        column < headers@.len(),
    ensures
        w == width(strings::strings(headers@), strings::grid(rows@), column as int),
{
    let ghost h = strings::strings(headers@);
    let ghost all = strings::grid(rows@);
    let mut w: usize = char_count(headers[column].as_str());
    let mut k: usize = 0;
    assert(all.take(0) =~= Seq::<Seq<Seq<char>>>::empty());
    while k < rows.len()
        invariant
            k <= rows@.len(),
            all == strings::grid(rows@),
            column < headers@.len(),
            w == width(h, all.take(k as int), column as int),
        decreases rows@.len() - k,
    {
        proof {
            assert(all.take(k + 1).drop_last() =~= all.take(k as int));
            assert(all.take(k + 1).last() == strings::strings(rows@[k as int]@));
        }
        if column < rows[k].len() {
            let n: usize = char_count(rows[k][column].as_str());
            if n > w {
                w = n;
            }
        }
        k = k + 1;
    }
    assert(all.take(k as int) =~= all);
    w
}

fn pad(cell: &str, column: usize, width: usize) -> (out: String)
    ensures
        out@ == padded(cell@, column as int, width as nat),
{
    let chars = text::to_chars(cell);
    let n: usize = if chars.len() < width {
        width - chars.len()
    } else {
        0
    };
    let mut fill: Vec<char> = Vec::new();
    let mut k: usize = 0;
    while k < n
        invariant
            k <= n,
            fill@ == spaces(k as nat),
        decreases n - k,
    {
        fill.push(' ');
        k = k + 1;
        assert(fill@ =~= spaces(k as nat));
    }
    assert(fill@ =~= spaces(n as nat));
    let mut out: Vec<char> = Vec::new();
    if column == 0 {
        text::put_all(&mut out, &chars);
        text::put_all(&mut out, &fill);
        assert(out@ =~= chars@ + fill@);
    } else {
        text::put_all(&mut out, &fill);
        text::put_all(&mut out, &chars);
        assert(out@ =~= fill@ + chars@);
    }
    text::to_text(&out)
}

/// The widths as natural numbers.
pub open spec fn naturals(widths: Seq<usize>) -> Seq<nat> {
    Seq::new(widths.len(), |k: int| widths[k] as nat)
}

fn put_line(out: &mut Vec<char>, cells: &Vec<String>, widths: &Vec<usize>)
    ensures
        final(out)@ == old(out)@ + text_line(strings::strings(cells@), naturals(widths@)),
{
    let ghost goal = padded_cells(strings::strings(cells@), naturals(widths@));
    let mut list: Vec<String> = Vec::new();
    let mut k: usize = 0;
    while k < cells.len() && k < widths.len()
        invariant
            k <= cells@.len(),
            k <= widths@.len(),
            list@.len() == k,
            goal == padded_cells(strings::strings(cells@), naturals(widths@)),
            forall|i: int| 0 <= i < k ==> (#[trigger] list@[i])@ == goal[i],
        decreases cells@.len() - k,
    {
        list.push(pad(cells[k].as_str(), k, widths[k]));
        k = k + 1;
    }
    assert(strings::strings(list@) =~= goal);
    let mut line = strings::join(&list, "  ");
    trim_end(&mut line);
    let ghost start = out@;
    text::put_all(out, &line);
    text::put(out, "\n");
    assert(out@ =~= start + text_line(strings::strings(cells@), naturals(widths@)));
}

fn trim_end(line: &mut Vec<char>)
    ensures
        final(line)@ == text::trimmed_end(old(line)@),
{
    let ghost start = line@;
    while line.len() > 0 && text::is_white(line[line.len() - 1])
        invariant
            text::trimmed_end(start) == text::trimmed_end(line@),
        decreases line@.len(),
    {
        assert(line@.last() == line@[line@.len() - 1]);
        let last = line.pop();
    }
    proof {
        if line@.len() > 0 {
            assert(line@.last() == line@[line@.len() - 1]);
        }
    }
}

pub fn table(markdown: bool, headers: &Vec<String>, rows: &Vec<Vec<String>>) -> (out: Vec<char>)
    ensures
        out@ == tabulated(markdown, strings::strings(headers@), strings::grid(rows@)),
{
    let ghost h = strings::strings(headers@);
    let ghost all = strings::grid(rows@);
    let mut out: Vec<char> = Vec::new();
    let mut k: usize = 0;
    assert(all.take(0) =~= Seq::<Seq<Seq<char>>>::empty());
    if markdown {
        put_markdown(&mut out, headers);
        let cells = mark_cells(headers.len());
        put_markdown(&mut out, &cells);
        let ghost head = markdown_line(h) + markdown_line(marks(h.len()));
        assert(out@ =~= head + markdown_rows(all.take(0)));
        while k < rows.len()
            invariant
                k <= rows@.len(),
                all == strings::grid(rows@),
                out@ == head + markdown_rows(all.take(k as int)),
            decreases rows@.len() - k,
        {
            proof {
                assert(all.take(k + 1).drop_last() =~= all.take(k as int));
                assert(all.take(k + 1).last() == strings::strings(rows@[k as int]@));
            }
            let cells = escape_cells(&rows[k]);
            put_markdown(&mut out, &cells);
            k = k + 1;
            assert(out@ =~= head + markdown_rows(all.take(k as int)));
        }
        assert(all.take(k as int) =~= all);
        return out;
    }
    let mut widths: Vec<usize> = Vec::new();
    let mut c: usize = 0;
    while c < headers.len()
        invariant
            c <= headers@.len(),
            widths@.len() == c,
            h == strings::strings(headers@),
            all == strings::grid(rows@),
            forall|i: int| 0 <= i < c ==> #[trigger] widths@[i] == width(h, all, i),
        decreases headers@.len() - c,
    {
        widths.push(measure(headers, rows, c));
        c = c + 1;
    }
    let ghost w = widths_of(h, all);
    assert(naturals(widths@) =~= w);
    put_line(&mut out, headers, &widths);
    let ghost head = text_line(h, w);
    assert(out@ =~= head + text_rows(all.take(0), w));
    while k < rows.len()
        invariant
            k <= rows@.len(),
            all == strings::grid(rows@),
            naturals(widths@) == w,
            out@ == head + text_rows(all.take(k as int), w),
        decreases rows@.len() - k,
    {
        proof {
            assert(all.take(k + 1).drop_last() =~= all.take(k as int));
            assert(all.take(k + 1).last() == strings::strings(rows@[k as int]@));
        }
        put_line(&mut out, &rows[k], &widths);
        k = k + 1;
        assert(out@ =~= head + text_rows(all.take(k as int), w));
    }
    assert(all.take(k as int) =~= all);
    out
}

/// A table of the first rows, with a note of how many are left out.
pub open spec fn shortened(
    markdown: bool,
    headers: Seq<Seq<char>>,
    rows: Seq<Seq<Seq<char>>>,
    max_rows: nat,
) -> Seq<char> {
    if rows.len() <= max_rows {
        tabulated(markdown, headers, rows)
    } else {
        tabulated(markdown, headers, rows.take(max_rows as int)) + "\n"@ + text::decimal(
            (rows.len() - max_rows) as nat,
        ) + " more rows not shown.\n"@
    }
}

pub fn capped(
    markdown: bool,
    headers: &Vec<String>,
    rows: Vec<Vec<String>>,
    max_rows: usize,
) -> (out: Vec<char>)
    ensures
        out@ == shortened(
            markdown,
            strings::strings(headers@),
            strings::grid(rows@),
            max_rows as nat,
        ),
{
    let mut rows = rows;
    let ghost all = rows@;
    if rows.len() <= max_rows {
        return table(markdown, headers, &rows);
    }
    let hidden: usize = rows.len() - max_rows;
    rows.truncate(max_rows);
    assert(strings::grid(rows@) =~= strings::grid(all).take(max_rows as int));
    let mut out = table(markdown, headers, &rows);
    text::put(&mut out, "\n");
    let n = text::number(hidden as u128);
    text::put_all(&mut out, &n);
    text::put(&mut out, " more rows not shown.\n");
    out
}

/// Headings with another first one.
pub fn with_first(columns: &Vec<String>, first: &str) -> (out: Vec<String>)
    requires
        columns@.len() > 0,
    ensures
        strings::strings(out@) == strings::strings(columns@).update(0, first@),
{
    let mut out = strings::copies(columns);
    assert(strings::strings(out@).len() == strings::strings(columns@).len());
    let ghost before = strings::strings(out@);
    out.set(0, strings::copy(first));
    assert(strings::strings(out@) =~= before.update(0, first@));
    out
}

} // verus!
