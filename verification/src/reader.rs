//! Reading whole MPS texts.

use crate::arithmetic;
use crate::bounds::Bounds;
use crate::csc::MatrixError;
use crate::mps::{
    self, Builder, Draft, Fault, FaultView, Format, Kind, Parts, RowKind, Section,
};
use crate::number::{infinity, neg_infinity, zero, Real};
use crate::problem::{Constraint, Problem};
use crate::strings;
use crate::text;
use crate::triplets::{self, Built};
use vstd::prelude::*;

verus! {

/// Why a text could not be read. Lines count from one; zero means that the
/// fault is not tied to a line.
#[derive(Clone, Debug)]
pub enum Error {
    Parse { line: usize, fault: Fault },
    Matrix(MatrixError),
}

/// The text of a string as the debug formatting of the standard library quotes
/// it.
pub uninterp spec fn debug_form(text: Seq<char>) -> Seq<char>;

/// Calls the debug formatting of `str` of the standard library. Claimed of it:
/// the result is a function of the characters.
#[verifier::external_body]
fn quote(text: &str) -> (quoted: String)
    ensures
        quoted@ == debug_form(text@),
{
    format!("{:?}", text)
}

/// A message about a line with an unexpected number of fields.
pub open spec fn shape_text(section: Seq<char>, count: int) -> Seq<char> {
    "unexpected "@ + section + " line with "@ + text::decimal(count as nat) + " fields"@
}

/// The message of a fault.
pub open spec fn fault_text(fault: FaultView) -> Seq<char> {
    let name = fault.first;
    match fault.kind {
        Kind::UnsupportedSection => "unsupported section "@ + name,
        Kind::SplitCharacter => "fixed-format field splits a character"@,
        Kind::RowsShape => shape_text("ROWS"@, fault.count),
        Kind::ColumnsShape => shape_text("COLUMNS"@, fault.count),
        Kind::SidesShape => shape_text("RHS or RANGES"@, fault.count),
        Kind::BoundsShape => shape_text("BOUNDS"@, fault.count),
        Kind::QuadraticShape => shape_text("QUADOBJ"@, fault.count),
        Kind::RowWithoutName => "row without a name"@,
        Kind::UnknownRowType => "unknown row type "@ + debug_form(name),
        Kind::RowTwice => "row "@ + name + " declared twice"@,
        Kind::UnknownRow => "unknown row "@ + debug_form(name),
        Kind::UnknownColumn => "unknown column "@ + debug_form(name),
        Kind::ColumnWithoutName => "column without a name"@,
        Kind::ObjectiveTwice => "objective entry for column "@ + name + " given twice"@,
        Kind::InvalidNumber => "invalid number "@ + debug_form(name),
        Kind::UnsupportedBound => "unsupported bound type "@ + debug_form(name),
        Kind::BoundWithoutValue => name + " bound without a value"@,
        Kind::BoundWithValue => name + " bound with a value"@,
        Kind::OutsideSection => "data line outside a section"@,
        Kind::MissingEnd => "missing ENDATA"@,
        Kind::NoObjective => "no objective row"@,
        Kind::MatrixTwice => "matrix entry ("@ + name + ", "@ + fault.second + ") given twice"@,
        Kind::QuadraticTwice => "QUADOBJ entry ("@ + name + ", "@ + fault.second
            + ") given twice"@,
    }
}

fn joined(head: &str, name: &Vec<char>, tail: &str) -> (out: Vec<char>)
    ensures
        out@ == head@ + name@ + tail@,
{
    let mut out = text::to_chars(head);
    text::put_all(&mut out, name);
    text::put(&mut out, tail);
    out
}

fn quoted(head: &str, name: &Vec<char>) -> (out: Vec<char>)
    ensures
        out@ == head@ + debug_form(name@),
{
    let word = text::to_text(name);
    let shown = quote(word.as_str());
    let mut out = text::to_chars(head);
    text::put(&mut out, shown.as_str());
    out
}

fn shape_message(section: &str, count: usize) -> (out: Vec<char>)
    ensures
        out@ == shape_text(section@, count as int),
{
    let mut out = text::to_chars("unexpected ");
    text::put(&mut out, section);
    text::put(&mut out, " line with ");
    let digits = text::number(count as u128);
    text::put_all(&mut out, &digits);
    text::put(&mut out, " fields");
    out
}

fn twice_message(head: &str, first: &Vec<char>, second: &Vec<char>) -> (out: Vec<char>)
    ensures
        out@ == head@ + first@ + ", "@ + second@ + ") given twice"@,
{
    let mut out = text::to_chars(head);
    text::put_all(&mut out, first);
    text::put(&mut out, ", ");
    text::put_all(&mut out, second);
    text::put(&mut out, ") given twice");
    out
}

impl Fault {
    /// The message of a fault.
    pub fn message(&self) -> (out: Vec<char>)
        ensures
            out@ == fault_text(self@),
    {
        let name = &self.first;
        match self.kind {
            Kind::UnsupportedSection => {
                let mut out = text::to_chars("unsupported section ");
                text::put_all(&mut out, name);
                out
            },
            Kind::SplitCharacter => text::to_chars("fixed-format field splits a character"),
            Kind::RowsShape => shape_message("ROWS", self.count),
            Kind::ColumnsShape => shape_message("COLUMNS", self.count),
            Kind::SidesShape => shape_message("RHS or RANGES", self.count),
            Kind::BoundsShape => shape_message("BOUNDS", self.count),
            Kind::QuadraticShape => shape_message("QUADOBJ", self.count),
            Kind::RowWithoutName => text::to_chars("row without a name"),
            Kind::UnknownRowType => quoted("unknown row type ", name),
            Kind::RowTwice => joined("row ", name, " declared twice"),
            Kind::UnknownRow => quoted("unknown row ", name),
            Kind::UnknownColumn => quoted("unknown column ", name),
            Kind::ColumnWithoutName => text::to_chars("column without a name"),
            Kind::ObjectiveTwice => joined("objective entry for column ", name, " given twice"),
            Kind::InvalidNumber => quoted("invalid number ", name),
            Kind::UnsupportedBound => quoted("unsupported bound type ", name),
            Kind::BoundWithoutValue => {
                let mut out = text::copy(name);
                text::put(&mut out, " bound without a value");
                out
            },
            Kind::BoundWithValue => {
                let mut out = text::copy(name);
                text::put(&mut out, " bound with a value");
                out
            },
            Kind::OutsideSection => text::to_chars("data line outside a section"),
            Kind::MissingEnd => text::to_chars("missing ENDATA"),
            Kind::NoObjective => text::to_chars("no objective row"),
            Kind::MatrixTwice => twice_message("matrix entry (", name, &self.second),
            Kind::QuadraticTwice => twice_message("QUADOBJ entry (", name, &self.second),
        }
    }
}

impl Error {
    pub open spec fn reach(self) -> usize {
        match self {
            Error::Parse { line, .. } => if line > 0 {
                line
            } else {
                usize::MAX
            },
            _ => usize::MAX,
        }
    }

    /// How far the failed attempt read. Faults not tied to a line are found
    /// after the last line.
    pub fn progress(&self) -> (n: usize)
        ensures
            n == self.reach(),
    {
        match self {
            Error::Parse { line, .. } => {
                if *line > 0 {
                    *line
                } else {
                    usize::MAX
                }
            },
            _ => usize::MAX,
        }
    }

    /// The message: for a fault in the text with its line.
    pub fn message(&self) -> (out: String)
        ensures
            out@ == match *self {
                Error::Parse { line, fault } => if line == 0 {
                    fault_text(fault@)
                } else {
                    "line "@ + text::decimal(line as nat) + ": "@ + fault_text(fault@)
                },
                Error::Matrix(e) => matrix_text(e),
            },
    {
        match self {
            Error::Parse { line, fault } => {
                let message = fault.message();
                if *line == 0 {
                    return text::to_text(&message);
                }
                let mut out = text::to_chars("line ");
                let digits = text::number(*line as u128);
                text::put_all(&mut out, &digits);
                text::put(&mut out, ": ");
                text::put_all(&mut out, &message);
                text::to_text(&out)
            },
            Error::Matrix(e) => e.message(),
        }
    }
}

/// The text of a matrix error.
pub open spec fn matrix_text(e: MatrixError) -> Seq<char> {
    match e {
        MatrixError::DimensionOverflow => "matrix dimensions overflow addressable memory"@,
        MatrixError::NonFiniteValue => "matrix values must all be finite"@,
        MatrixError::InvalidColumnPointerCount => "CSC column pointers must have length ncols + 1"@,
        MatrixError::InvalidColumnPointers =>
            "CSC column pointers must begin at zero and be nondecreasing"@,
        MatrixError::MismatchedSparseArrays =>
            "CSC index and value arrays must have equal lengths"@,
        MatrixError::RowIndexOutOfBounds { row, rows } => "CSC row index "@ + text::decimal(
            row as nat,
        ) + " is out of bounds for a matrix with "@ + text::decimal(rows as nat) + " rows"@,
        MatrixError::UnsortedRowIndices =>
            "CSC row indices must be strictly increasing within each column"@,
        MatrixError::MismatchedTripletArrays =>
            "triplet row, column, and value arrays must have equal lengths"@,
        MatrixError::ColumnIndexOutOfBounds { column, columns } => "triplet column index "@
            + text::decimal(column as nat) + " is out of bounds for "@ + text::decimal(
            columns as nat,
        ) + " columns"@,
    }
}

impl MatrixError {
    /// What went wrong.
    pub fn message(&self) -> (out: String)
        ensures
            out@ == matrix_text(*self),
    {
        match *self {
            MatrixError::DimensionOverflow => strings::copy(
                "matrix dimensions overflow addressable memory",
            ),
            MatrixError::NonFiniteValue => strings::copy("matrix values must all be finite"),
            MatrixError::InvalidColumnPointerCount => strings::copy(
                "CSC column pointers must have length ncols + 1",
            ),
            MatrixError::InvalidColumnPointers => strings::copy(
                "CSC column pointers must begin at zero and be nondecreasing",
            ),
            MatrixError::MismatchedSparseArrays => strings::copy(
                "CSC index and value arrays must have equal lengths",
            ),
            MatrixError::RowIndexOutOfBounds { row, rows } => {
                let mut out = text::to_chars("CSC row index ");
                let digits = text::number(row as u128);
                text::put_all(&mut out, &digits);
                text::put(&mut out, " is out of bounds for a matrix with ");
                let more = text::number(rows as u128);
                text::put_all(&mut out, &more);
                text::put(&mut out, " rows");
                text::to_text(&out)
            },
            MatrixError::UnsortedRowIndices => strings::copy(
                "CSC row indices must be strictly increasing within each column",
            ),
            MatrixError::MismatchedTripletArrays => strings::copy(
                "triplet row, column, and value arrays must have equal lengths",
            ),
            MatrixError::ColumnIndexOutOfBounds { column, columns } => {
                let mut out = text::to_chars("triplet column index ");
                let digits = text::number(column as u128);
                text::put_all(&mut out, &digits);
                text::put(&mut out, " is out of bounds for ");
                let more = text::number(columns as u128);
                text::put_all(&mut out, &more);
                text::put(&mut out, " columns");
                text::to_text(&out)
            },
        }
    }
}

/// The section that a keyword starts.
pub open spec fn section_of(word: Seq<char>) -> Option<Section> {
    if word == "NAME"@ {
        Some(Section::Preamble)
    } else if word == "ROWS"@ {
        Some(Section::Rows)
    } else if word == "COLUMNS"@ {
        Some(Section::Columns)
    } else if word == "RHS"@ {
        Some(Section::Rhs)
    } else if word == "RANGES"@ {
        Some(Section::Ranges)
    } else if word == "BOUNDS"@ {
        Some(Section::Bounds)
    } else if word == "QUADOBJ"@ {
        Some(Section::QuadObj)
    } else if word == "ENDATA"@ {
        Some(Section::End)
    } else {
        None
    }
}

fn keyword(word: &Vec<char>) -> (section: Option<Section>)
    ensures
        section == section_of(word@),
{
    if text::is_word(word, "NAME") {
        Some(Section::Preamble)
    } else if text::is_word(word, "ROWS") {
        Some(Section::Rows)
    } else if text::is_word(word, "COLUMNS") {
        Some(Section::Columns)
    } else if text::is_word(word, "RHS") {
        Some(Section::Rhs)
    } else if text::is_word(word, "RANGES") {
        Some(Section::Ranges)
    } else if text::is_word(word, "BOUNDS") {
        Some(Section::Bounds)
    } else if text::is_word(word, "QUADOBJ") {
        Some(Section::QuadObj)
    } else if text::is_word(word, "ENDATA") {
        Some(Section::End)
    } else {
        None
    }
}

/// How far the reading of the lines has come.
pub enum Scan {
    Going(Draft, Section),
    Ended(Draft),
    Failed(int, FaultView),
}

/// The tokens of a data line.
pub open spec fn tokens(line: Seq<char>, format: Format) -> Option<Seq<Seq<char>>> {
    match format {
        Format::Free => Some(text::words_of(line)),
        Format::Fixed => mps::fields(line),
    }
}

/// One more line. Comments and blank lines are skipped; a line without white
/// space in front starts a section; every other line holds data.
pub open spec fn scan_line<F: Fn(&Vec<char>) -> Option<Real>>(
    draft: Draft,
    section: Section,
    line: Seq<char>,
    place: int,
    format: Format,
    f: F,
) -> Scan {
    if line.len() == 0 || line[0] == '*' || text::words_of(line).len() == 0 {
        Scan::Going(draft, section)
    } else if !text::white(line[0]) {
        let word = text::words_of(line)[0];
        match section_of(word) {
            None => Scan::Failed(place, mps::about(Kind::UnsupportedSection, word)),
            Some(next) => if next is End {
                Scan::Ended(draft)
            } else {
                Scan::Going(draft, next)
            },
        }
    } else {
        match tokens(line, format) {
            None => Scan::Failed(place, mps::plain(Kind::SplitCharacter)),
            Some(t) => match draft.line(section, format, t, f) {
                Err(fault) => Scan::Failed(place, fault),
                Ok(next) => Scan::Going(next, section),
            },
        }
    }
}

/// The first `n` lines.
pub open spec fn scan<F: Fn(&Vec<char>) -> Option<Real>>(
    lines: Seq<Seq<char>>,
    n: nat,
    format: Format,
    f: F,
) -> Scan
    decreases n,
{
    if n == 0 {
        Scan::Going(Draft::blank(), Section::Preamble)
    } else {
        match scan(lines, (n - 1) as nat, format, f) {
            Scan::Going(draft, section) => scan_line(
                draft,
                section,
                lines[n - 1],
                n as int,
                format,
                f,
            ),
            other => other,
        }
    }
}

proof fn scan_stays<F: Fn(&Vec<char>) -> Option<Real>>(
    lines: Seq<Seq<char>>,
    m: nat,
    n: nat,
    format: Format,
    f: F,
)
    requires
        m <= n,
        !(scan(lines, m, format, f) is Going),
    ensures
        scan(lines, n, format, f) == scan(lines, m, format, f),
    decreases n,
{
    if m < n {
        scan_stays(lines, m, (n - 1) as nat, format, f);
    }
}

/// The sides of a row.
pub open spec fn row_sides<P: Fn(Real, Real) -> Real>(
    kind: RowKind,
    rhs: Real,
    range: Option<Real>,
    plus: P,
) -> Bounds {
    match range {
        None => match kind {
            RowKind::Equal => Bounds { lower: rhs, upper: rhs },
            RowKind::Less => Bounds { lower: neg_infinity(), upper: rhs },
            RowKind::Greater => Bounds { lower: rhs, upper: infinity() },
        },
        Some(r) => match kind {
            RowKind::Less => Bounds {
                lower: arithmetic::value(plus, rhs, r.absolute().opposite()),
                upper: rhs,
            },
            RowKind::Greater => Bounds {
                lower: rhs,
                upper: arithmetic::value(plus, rhs, r.absolute()),
            },
            RowKind::Equal => if zero().le(r) {
                Bounds { lower: rhs, upper: arithmetic::value(plus, rhs, r) }
            } else {
                Bounds { lower: arithmetic::value(plus, rhs, r), upper: rhs }
            },
        },
    }
}

fn sides_of<P: Fn(Real, Real) -> Real>(
    kind: RowKind,
    rhs: Real,
    range: Option<Real>,
    plus: &P,
) -> (b: Bounds)
    requires
        arithmetic::functional(*plus),
    ensures
        b == row_sides(kind, rhs, range, *plus),
{
    match range {
        None => match kind {
            RowKind::Equal => Bounds { lower: rhs, upper: rhs },
            RowKind::Less => Bounds { lower: neg_infinity(), upper: rhs },
            RowKind::Greater => Bounds { lower: rhs, upper: infinity() },
        },
        Some(r) => match kind {
            RowKind::Less => Bounds { lower: plus(rhs, r.abs().neg()), upper: rhs },
            RowKind::Greater => Bounds { lower: rhs, upper: plus(rhs, r.abs()) },
            RowKind::Equal => {
                if zero().at_most(r) {
                    Bounds { lower: rhs, upper: plus(rhs, r) }
                } else {
                    Bounds { lower: plus(rhs, r), upper: rhs }
                }
            },
        },
    }
}

/// A repeated entry, the first one by column and row.
pub open spec fn repeats(
    list: Seq<(usize, usize, Real)>,
    i: usize,
    j: usize,
) -> bool {
    &&& triplets::twice(list, i, j)
    &&& forall|k: usize, l: usize|
        l < j || (l == j && k < i) ==> !#[trigger] triplets::twice(list, k, l)
}

/// No entry is repeated and every stored value is finite.
pub open spec fn clean(list: Seq<(usize, usize, Real)>) -> bool {
    &&& forall|i: usize, j: usize| !#[trigger] triplets::twice(list, i, j)
    &&& triplets::storable(list)
}

/// A list of entries that no matrix can be made of.
pub open spec fn rejected(
    error: Error,
    list: Seq<(usize, usize, Real)>,
    kind: Kind,
    rows: Seq<Seq<char>>,
    columns: Seq<Seq<char>>,
) -> bool {
    match error {
        Error::Parse { line, fault } => line == 0 && exists|i: usize, j: usize|
            #[trigger] repeats(list, i, j) && fault@ == (FaultView {
                kind,
                first: rows[i as int],
                second: columns[j as int],
                count: 0,
            }),
        Error::Matrix(e) => e == MatrixError::NonFiniteValue && !triplets::storable(list)
            && forall|i: usize, j: usize| !#[trigger] triplets::twice(list, i, j),
    }
}

/// The problem of a complete draft.
pub open spec fn finished<P: Fn(Real, Real) -> Real>(
    result: Result<Problem, Error>,
    d: Draft,
    plus: P,
) -> bool {
    if !d.has_objective {
        result matches Err(Error::Parse { line, fault }) && line == 0 && fault@ == mps::plain(
            Kind::NoObjective,
        )
    } else if !clean(d.a) {
        result matches Err(error) && rejected(
            error,
            d.a,
            Kind::MatrixTwice,
            d.constraint_names,
            d.column_names,
        )
    } else if !clean(d.q) {
        result matches Err(error) && rejected(
            error,
            d.q,
            Kind::QuadraticTwice,
            d.column_names,
            d.column_names,
        )
    } else {
        let m = d.kinds.len();
        let n = d.column_names.len();
        &&& result matches Ok(problem)
        &&& problem.c@ == d.c
        &&& problem.c0 == d.constant
        &&& problem.rows@ == Seq::new(
            m,
            |i: int| Constraint::Linear(row_sides(d.kinds[i], d.rhs[i], d.ranges[i], plus)),
        )
        &&& problem.variable_bounds@ == d.bounds
        &&& problem.cones@.len() == 0
        &&& triplets::holds(problem.a, m as usize, n as usize, d.a)
        &&& if d.q.len() == 0 {
            problem.p is None
        } else {
            problem.p matches Some(p) && triplets::holds(p, n as usize, n as usize, d.q)
        }
    }
}

fn duplicate(
    kind: Kind,
    i: usize,
    j: usize,
    first: &Vec<char>,
    second: &Vec<char>,
) -> (error: Error)
    ensures
        error matches Error::Parse { line, fault } && line == 0 && fault@ == (FaultView {
            kind,
            first: first@,
            second: second@,
            count: 0,
        }),
{
    let fault = Fault { kind, first: text::copy(first), second: text::copy(second), count: 0 };
    Error::Parse { line: 0, fault }
}

/// Assemble the problem of a complete draft.
fn finish<P: Fn(Real, Real) -> Real>(parts: Parts, plus: &P) -> (result: Result<Problem, Error>)
    requires
        parts@.wf(),
        arithmetic::functional(*plus),
    ensures
        finished(result, parts@, *plus),
{
    let ghost d = parts@;
    if !parts.has_objective {
        return Err(Error::Parse { line: 0, fault: mps::plain_fault(Kind::NoObjective) });
    }
    let m: usize = parts.kinds.len();
    let n: usize = parts.columns.len();
    let mut rows: Vec<Constraint> = Vec::new();
    let mut i: usize = 0;
    while i < m
        invariant
            i <= m,
            m == parts.kinds@.len(),
            parts.rhs@.len() == m,
            parts.ranges@.len() == m,
            arithmetic::functional(*plus),
            rows@.len() == i,
            forall|k: int|
                0 <= k < i ==> #[trigger] rows@[k] == Constraint::Linear(
                    row_sides(parts.kinds@[k], parts.rhs@[k], parts.ranges@[k], *plus),
                ),
        decreases m - i,
    {
        let b = sides_of(parts.kinds[i], parts.rhs[i], parts.ranges[i], plus);
        rows.push(Constraint::Linear(b));
        i = i + 1;
    }
    assert(rows@ =~= Seq::new(
        m as nat,
        |i: int| Constraint::Linear(row_sides(d.kinds[i], d.rhs[i], d.ranges[i], *plus)),
    ));
    proof {
        assert forall|k: int| 0 <= k < parts.a@.len() implies (#[trigger] parts.a@[k]).0 < m
            && parts.a@[k].1 < n by {
            assert(d.a[k].0 < d.kinds.len());
        }
        assert forall|k: int| 0 <= k < parts.q@.len() implies (#[trigger] parts.q@[k]).0 < n
            && parts.q@[k].1 < n by {
            assert(d.q[k].0 < d.column_names.len());
        }
    }
    let a = match triplets::csc(m, n, parts.a) {
        Ok(a) => a,
        Err(Built::Duplicate(i, j)) => {
            proof {
                assert(repeats(d.a, i, j));
                let (x, y) = choose|x: int, y: int|
                    0 <= x < y < d.a.len() && (#[trigger] d.a[x]).0 == i && d.a[x].1 == j && (
                    #[trigger] d.a[y]).0 == i && d.a[y].1 == j;
                assert(d.a[x].0 < m);
                assert(!clean(d.a));
            }
            return Err(
                duplicate(
                    Kind::MatrixTwice,
                    i,
                    j,
                    &parts.constraint_names[i],
                    parts.columns.at(j),
                ),
            );
        },
        Err(Built::Matrix(e)) => {
            return Err(Error::Matrix(e));
        },
    };
    let quadratic = parts.q.len() > 0;
    let p = match triplets::csc(n, n, parts.q) {
        Ok(p) => if quadratic {
            Some(p)
        } else {
            None
        },
        Err(Built::Duplicate(i, j)) => {
            proof {
                assert(repeats(d.q, i, j));
                let (x, y) = choose|x: int, y: int|
                    0 <= x < y < d.q.len() && (#[trigger] d.q[x]).0 == i && d.q[x].1 == j && (
                    #[trigger] d.q[y]).0 == i && d.q[y].1 == j;
                assert(d.q[x].0 < n);
                assert(!clean(d.q));
            }
            return Err(
                duplicate(Kind::QuadraticTwice, i, j, parts.columns.at(i), parts.columns.at(j)),
            );
        },
        Err(Built::Matrix(e)) => {
            return Err(Error::Matrix(e));
        },
    };
    Ok(
        Problem {
            p,
            c: parts.c,
            c0: parts.constant,
            a,
            rows,
            variable_bounds: parts.bounds,
            cones: Vec::new(),
        },
    )
}

/// What the text means in one of the two formats.
pub open spec fn parsed<F: Fn(&Vec<char>) -> Option<Real>, P: Fn(Real, Real) -> Real>(
    result: Result<Problem, Error>,
    chars: Seq<char>,
    format: Format,
    f: F,
    plus: P,
) -> bool {
    let lines = text::lines_of(chars);
    match scan(lines, lines.len(), format, f) {
        Scan::Failed(place, want) => result matches Err(Error::Parse { line, fault }) && line
            == place && fault@ == want,
        Scan::Going(_, _) => result matches Err(Error::Parse { line, fault }) && line == 0
            && fault@ == mps::plain(Kind::MissingEnd),
        Scan::Ended(draft) => finished(result, draft, plus),
    }
}

/// Read a text in one of the two formats.
pub fn parse_as<F: Fn(&Vec<char>) -> Option<Real>, P: Fn(Real, Real) -> Real>(
    chars: &Vec<char>,
    format: Format,
    f: &F,
    plus: &P,
) -> (result: Result<Problem, Error>)
    requires
        mps::reads_numbers(*f),
        arithmetic::functional(*plus),
    ensures
        parsed(result, chars@, format, *f, *plus),
{
    let lines = text::lines(chars);
    let ghost all = text::texts(lines@);
    assert(lines.len() == lines@.len());
    let mut builder = Builder::new();
    let mut section = Section::Preamble;
    let mut k: usize = 0;
    while k < lines.len()
        invariant
            k <= lines@.len() <= usize::MAX,
            all == text::texts(lines@),
            all == text::lines_of(chars@),
            mps::reads_numbers(*f),
            arithmetic::functional(*plus),
            builder.wf(),
            scan(all, k as nat, format, *f) == Scan::Going(builder@, section),
        decreases lines@.len() - k,
    {
        let line = &lines[k];
        k = k + 1;
        assert(all[k - 1] == line@);
        let words = text::words(line);
        if line.len() == 0 || line[0] == '*' || words.len() == 0 {
            continue ;
        }
        if !text::is_white(line[0]) {
            assert(text::texts(words@)[0] == words@[0]@);
            match keyword(&words[0]) {
                None => {
                    proof {
                        scan_stays(all, k as nat, all.len(), format, *f);
                    }
                    return Err(
                        Error::Parse {
                            line: k,
                            fault: mps::fault_about(Kind::UnsupportedSection, &words[0]),
                        },
                    );
                },
                Some(next) => {
                    if next == Section::End {
                        proof {
                            scan_stays(all, k as nat, all.len(), format, *f);
                        }
                        let parts = builder.into_parts();
                        return finish(parts, plus);
                    }
                    section = next;
                },
            }
            continue ;
        }
        let tokens = match format {
            Format::Free => words,
            Format::Fixed => match mps::fixed_fields(line) {
                Some(fields) => fields,
                None => {
                    proof {
                        scan_stays(all, k as nat, all.len(), format, *f);
                    }
                    return Err(
                        Error::Parse { line: k, fault: mps::plain_fault(Kind::SplitCharacter) },
                    );
                },
            },
        };
        match builder.line(section, format, &tokens, f) {
            Ok(()) => {},
            Err(fault) => {
                proof {
                    scan_stays(all, k as nat, all.len(), format, *f);
                }
                return Err(Error::Parse { line: k, fault });
            },
        }
    }
    Err(Error::Parse { line: 0, fault: mps::plain_fault(Kind::MissingEnd) })
}

/// The free format decides, unless it fails: then the fixed format does, and of
/// two failures the one that got further is kept.
pub open spec fn chosen(
    result: Result<Problem, Error>,
    free: Result<Problem, Error>,
    fixed: Result<Problem, Error>,
) -> bool {
    match free {
        Ok(_) => result == free,
        Err(e) => match fixed {
            Ok(_) => result == fixed,
            Err(g) => if g.reach() > e.reach() {
                result == fixed
            } else {
                result == free
            },
        },
    }
}

/// Parse MPS text, trying free format and then fixed format. `number` reads a
/// token, and `plus` adds.
pub fn parse<F: Fn(&Vec<char>) -> Option<Real>, P: Fn(Real, Real) -> Real>(
    text: &str,
    number: &F,
    plus: &P,
) -> (result: Result<Problem, Error>)
    requires
        mps::reads_numbers(*number),
        arithmetic::functional(*plus),
    ensures
        exists|free: Result<Problem, Error>, fixed: Result<Problem, Error>|
            #![trigger parsed(free, text@, Format::Free, *number, *plus), parsed(
                fixed,
                text@,
                Format::Fixed,
                *number,
                *plus,
            )]
            {
                &&& parsed(free, text@, Format::Free, *number, *plus)
                &&& free is Err ==> parsed(fixed, text@, Format::Fixed, *number, *plus)
                &&& chosen(result, free, fixed)
            },
{
    let chars = text::to_chars(text);
    let free = parse_as(&chars, Format::Free, number, plus);
    let ghost first = free;
    assert(parsed(first, text@, Format::Free, *number, *plus));
    match free {
        Ok(problem) => {
            proof {
                let unused = first;
                let b = parsed(unused, text@, Format::Fixed, *number, *plus);
            }
            Ok(problem)
        },
        Err(error) => {
            let fixed = parse_as(&chars, Format::Fixed, number, plus);
            let ghost second = fixed;
            assert(parsed(second, text@, Format::Fixed, *number, *plus));
            match fixed {
                Ok(problem) => Ok(problem),
                Err(other) => {
                    if other.progress() > error.progress() {
                        Err(other)
                    } else {
                        Err(error)
                    }
                },
            }
        },
    }
}

} // verus!
