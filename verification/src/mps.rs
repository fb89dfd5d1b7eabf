//! MPS reader for linear and quadratic programs.
//!
//! Free format is tried first. A text that fails to parse is retried in fixed
//! format, whose column positions allow spaces inside names; the error from the
//! attempt that got further is reported. Supported sections are NAME, ROWS,
//! COLUMNS, RHS, RANGES, BOUNDS, QUADOBJ and ENDATA.
//!
//! Conventions, matching common solvers:
//! - the first `N` row is the objective and later `N` rows are ignored;
//! - an RHS entry on the objective row is the negated objective constant;
//! - a range `R` makes an `L` row `[rhs - |R|, rhs]`, a `G` row
//!   `[rhs, rhs + |R|]`, and an `E` row `[rhs, rhs + R]` or `[rhs + R, rhs]`
//!   by the sign of `R`;
//! - bounds default to `[0, inf)`; `UP` with a negative value on a column
//!   without an explicit lower bound sets the lower bound to `-inf`;
//! - QUADOBJ lists one triangle of the symmetric `Q` in `0.5 x'Qx`;
//! - set names in RHS, RANGES and BOUNDS may be omitted, and every set is read
//!   as one;
//! - integrality markers are skipped, giving the continuous relaxation.
//!
//! Repeated matrix or QUADOBJ entries are errors.

use crate::bounds::Bounds;
use crate::number::{infinity, neg_infinity, zero, Real};
use crate::names::{self, Names};
use crate::text;
use vstd::prelude::*;

verus! {

#[derive(Clone, Copy, Debug, PartialEq, Eq, Structural)]
pub enum Format {
    Free,
    Fixed,
}

#[derive(Clone, Copy, Debug, PartialEq, Eq, Structural)]
pub enum Section {
    Preamble,
    Rows,
    Columns,
    Rhs,
    Ranges,
    Bounds,
    QuadObj,
    End,
}

#[derive(Clone, Copy, Debug, PartialEq, Eq, Structural)]
pub enum RowKind {
    Equal,
    Less,
    Greater,
}

#[derive(Clone, Copy, Debug, PartialEq, Eq, Structural)]
pub enum Row {
    Objective,
    Free,
    Constraint(usize),
}

/// What can be wrong with a text.
#[derive(Clone, Copy, Debug, PartialEq, Eq, Structural)]
pub enum Kind {
    UnsupportedSection,
    SplitCharacter,
    RowsShape,
    ColumnsShape,
    SidesShape,
    BoundsShape,
    QuadraticShape,
    RowWithoutName,
    UnknownRowType,
    RowTwice,
    UnknownRow,
    UnknownColumn,
    ColumnWithoutName,
    ObjectiveTwice,
    InvalidNumber,
    UnsupportedBound,
    BoundWithoutValue,
    BoundWithValue,
    OutsideSection,
    MissingEnd,
    NoObjective,
    MatrixTwice,
    QuadraticTwice,
}

/// A fault with the names and the number of fields that it speaks of.
#[derive(Clone, Debug)]
pub struct Fault {
    pub kind: Kind,
    pub first: Vec<char>,
    pub second: Vec<char>,
    pub count: usize,
}

#[verifier::ext_equal]
pub struct FaultView {
    pub kind: Kind,
    pub first: Seq<char>,
    pub second: Seq<char>,
    pub count: int,
}

impl View for Fault {
    type V = FaultView;

    open spec fn view(&self) -> FaultView {
        FaultView {
            kind: self.kind,
            first: self.first@,
            second: self.second@,
            count: self.count as int,
        }
    }
}

/// A fault that names one word.
pub open spec fn about(kind: Kind, name: Seq<char>) -> FaultView {
    FaultView { kind, first: name, second: Seq::empty(), count: 0 }
}

/// A fault that names nothing.
pub open spec fn plain(kind: Kind) -> FaultView {
    about(kind, Seq::empty())
}

/// A line with an unexpected number of fields.
pub open spec fn misshapen(kind: Kind, count: int) -> FaultView {
    FaultView { kind, first: Seq::empty(), second: Seq::empty(), count }
}

pub(crate) fn fault_about(kind: Kind, name: &Vec<char>) -> (fault: Fault)
    ensures
        fault@ == about(kind, name@),
{
    let fault = Fault { kind, first: text::copy(name), second: Vec::new(), count: 0 };
    assert(fault@ =~= about(kind, name@));
    fault
}

pub(crate) fn plain_fault(kind: Kind) -> (fault: Fault)
    ensures
        fault@ == plain(kind),
{
    let fault = Fault { kind, first: Vec::new(), second: Vec::new(), count: 0 };
    assert(fault@ =~= plain(kind));
    fault
}

fn shape(kind: Kind, count: usize) -> (fault: Fault)
    ensures
        fault@ == misshapen(kind, count as int),
{
    let fault = Fault { kind, first: Vec::new(), second: Vec::new(), count };
    assert(fault@ =~= misshapen(kind, count as int));
    fault
}

/// A reader of numbers can give this answer for the characters of a token.
pub open spec fn answers<F: Fn(&Vec<char>) -> Option<Real>>(
    f: F,
    token: Seq<char>,
    r: Option<Real>,
) -> bool {
    exists|v: Vec<char>| v@ == token && #[trigger] call_ensures(f, (&v,), r)
}

/// What a reader of numbers makes of a token.
pub open spec fn number_read<F: Fn(&Vec<char>) -> Option<Real>>(f: F, token: Seq<char>) -> Option<
    Real,
> {
    choose|r: Option<Real>| answers(f, token, r)
}

/// The reader accepts any token and depends on its characters alone.
pub open spec fn reads_numbers<F: Fn(&Vec<char>) -> Option<Real>>(f: F) -> bool {
    &&& forall|v: &Vec<char>| #[trigger] call_requires(f, (v,))
    &&& forall|v: &Vec<char>, r: Option<Real>| #[trigger]
        call_ensures(f, (v,), r) ==> r == number_read(f, v@)
}

/// The value of a token, if it is a number.
pub open spec fn reading<F: Fn(&Vec<char>) -> Option<Real>>(f: F, token: Seq<char>) -> Option<
    Real,
> {
    match number_read(f, token) {
        Some(v) => if v.nan() {
            None
        } else {
            Some(v)
        },
        None => None,
    }
}

fn number<F: Fn(&Vec<char>) -> Option<Real>>(token: &Vec<char>, f: &F) -> (value: Result<
    Real,
    Fault,
>)
    requires
        reads_numbers(*f),
    ensures
        match value {
            Ok(v) => reading(*f, token@) == Some(v),
            Err(fault) => reading(*f, token@) is None && fault@ == about(
                Kind::InvalidNumber,
                token@,
            ),
        },
{
    match f(token) {
        Some(v) => {
            if v.is_nan() {
                Err(fault_about(Kind::InvalidNumber, token))
            } else {
                Ok(v)
            }
        },
        None => Err(fault_about(Kind::InvalidNumber, token)),
    }
}

/// Everything read so far.
#[verifier::ext_equal]
pub struct Draft {
    pub row_names: Seq<Seq<char>>,
    pub roles: Seq<Row>,
    pub constraint_names: Seq<Seq<char>>,
    pub kinds: Seq<RowKind>,
    pub has_objective: bool,
    pub column_names: Seq<Seq<char>>,
    pub c: Seq<Real>,
    pub objective_set: Seq<bool>,
    pub a: Seq<(usize, usize, Real)>,
    pub rhs: Seq<Real>,
    pub ranges: Seq<Option<Real>>,
    pub constant: Real,
    pub bounds: Seq<Bounds>,
    pub lower_set: Seq<bool>,
    pub q: Seq<(usize, usize, Real)>,
}

impl Draft {
    /// Nothing read yet.
    pub open spec fn blank() -> Draft {
        Draft {
            row_names: Seq::empty(),
            roles: Seq::empty(),
            constraint_names: Seq::empty(),
            kinds: Seq::empty(),
            has_objective: false,
            column_names: Seq::empty(),
            c: Seq::empty(),
            objective_set: Seq::empty(),
            a: Seq::empty(),
            rhs: Seq::empty(),
            ranges: Seq::empty(),
            constant: zero(),
            bounds: Seq::empty(),
            lower_set: Seq::empty(),
            q: Seq::empty(),
        }
    }

    /// Rows, columns and entries fit together.
    pub open spec fn wf(self) -> bool {
        &&& self.row_names.no_duplicates()
        &&& self.roles.len() == self.row_names.len()
        &&& self.constraint_names.len() == self.kinds.len()
        &&& self.rhs.len() == self.kinds.len()
        &&& self.ranges.len() == self.kinds.len()
        &&& forall|r: int|
            0 <= r < self.roles.len() ==> (#[trigger] self.roles[r] matches Row::Constraint(i)
                ==> i < self.kinds.len())
        &&& self.column_names.no_duplicates()
        &&& self.c.len() == self.column_names.len()
        &&& self.objective_set.len() == self.column_names.len()
        &&& self.bounds.len() == self.column_names.len()
        &&& self.lower_set.len() == self.column_names.len()
        &&& forall|k: int|
            0 <= k < self.a.len() ==> (#[trigger] self.a[k]).0 < self.kinds.len() && self.a[k].1
                < self.column_names.len()
        &&& forall|k: int|
            0 <= k < self.q.len() ==> (#[trigger] self.q[k]).0 < self.column_names.len()
                && self.q[k].1 < self.column_names.len()
    }

    /// A line of the ROWS section.
    pub open spec fn row(self, kind: Seq<char>, name: Seq<char>) -> Result<Draft, FaultView> {
        let known = names::find(self.row_names, name) is Some;
        if name.len() == 0 {
            Err(plain(Kind::RowWithoutName))
        } else if kind == "N"@ {
            if known {
                Err(about(Kind::RowTwice, name))
            } else {
                Ok(
                    Draft {
                        row_names: self.row_names.push(name),
                        roles: self.roles.push(
                            if self.has_objective {
                                Row::Free
                            } else {
                                Row::Objective
                            },
                        ),
                        has_objective: true,
                        ..self
                    },
                )
            }
        } else if kind == "E"@ || kind == "L"@ || kind == "G"@ {
            if known {
                Err(about(Kind::RowTwice, name))
            } else {
                Ok(
                    Draft {
                        row_names: self.row_names.push(name),
                        roles: self.roles.push(Row::Constraint(self.kinds.len() as usize)),
                        constraint_names: self.constraint_names.push(name),
                        kinds: self.kinds.push(
                            if kind == "E"@ {
                                RowKind::Equal
                            } else if kind == "L"@ {
                                RowKind::Less
                            } else {
                                RowKind::Greater
                            },
                        ),
                        rhs: self.rhs.push(zero()),
                        ranges: self.ranges.push(None),
                        ..self
                    },
                )
            }
        } else {
            Err(about(Kind::UnknownRowType, kind))
        }
    }

    /// The column of a name, appended if it is new.
    pub open spec fn with_column(self, name: Seq<char>) -> Draft {
        if names::find(self.column_names, name) is Some {
            self
        } else {
            Draft {
                column_names: self.column_names.push(name),
                c: self.c.push(zero()),
                objective_set: self.objective_set.push(false),
                bounds: self.bounds.push(Bounds { lower: zero(), upper: infinity() }),
                lower_set: self.lower_set.push(false),
                ..self
            }
        }
    }

    /// One coefficient of a column.
    pub open spec fn coefficient<F: Fn(&Vec<char>) -> Option<Real>>(
        self,
        column: Seq<char>,
        row: Seq<char>,
        value: Seq<char>,
        f: F,
    ) -> Result<Draft, FaultView> {
        let j = names::find(self.column_names, column)->0;
        match reading(f, value) {
            None => Err(about(Kind::InvalidNumber, value)),
            Some(v) => match names::find(self.row_names, row) {
                None => Err(about(Kind::UnknownRow, row)),
                Some(r) => match self.roles[r] {
                    Row::Objective => if self.objective_set[j] {
                        Err(about(Kind::ObjectiveTwice, column))
                    } else {
                        Ok(
                            Draft {
                                objective_set: self.objective_set.update(j, true),
                                c: self.c.update(j, v),
                                ..self
                            },
                        )
                    },
                    Row::Free => Ok(self),
                    Row::Constraint(i) => Ok(Draft { a: self.a.push((i, j as usize, v)), ..self }),
                },
            },
        }
    }

    /// A line of the COLUMNS section, with one pair or two.
    pub open spec fn entry<F: Fn(&Vec<char>) -> Option<Real>>(
        self,
        column: Seq<char>,
        t: Seq<Seq<char>>,
        from: int,
        pairs: int,
        f: F,
    ) -> Result<Draft, FaultView> {
        if column.len() == 0 {
            Err(plain(Kind::ColumnWithoutName))
        } else {
            match self.with_column(column).coefficient(column, t[from], t[from + 1], f) {
                Err(fault) => Err(fault),
                Ok(draft) => if pairs == 1 {
                    Ok(draft)
                } else {
                    draft.coefficient(column, t[from + 2], t[from + 3], f)
                },
            }
        }
    }

    /// One right-hand side.
    pub open spec fn side<F: Fn(&Vec<char>) -> Option<Real>>(
        self,
        row: Seq<char>,
        value: Seq<char>,
        f: F,
    ) -> Result<Draft, FaultView> {
        match reading(f, value) {
            None => Err(about(Kind::InvalidNumber, value)),
            Some(v) => match names::find(self.row_names, row) {
                None => Err(about(Kind::UnknownRow, row)),
                Some(r) => match self.roles[r] {
                    Row::Objective => Ok(Draft { constant: v.opposite(), ..self }),
                    Row::Free => Ok(self),
                    Row::Constraint(i) => Ok(Draft { rhs: self.rhs.update(i as int, v), ..self }),
                },
            },
        }
    }

    /// One range.
    pub open spec fn range<F: Fn(&Vec<char>) -> Option<Real>>(
        self,
        row: Seq<char>,
        value: Seq<char>,
        f: F,
    ) -> Result<Draft, FaultView> {
        match reading(f, value) {
            None => Err(about(Kind::InvalidNumber, value)),
            Some(v) => match names::find(self.row_names, row) {
                None => Err(about(Kind::UnknownRow, row)),
                Some(r) => match self.roles[r] {
                    Row::Constraint(i) => Ok(
                        Draft { ranges: self.ranges.update(i as int, Some(v)), ..self },
                    ),
                    _ => Ok(self),
                },
            },
        }
    }

    pub open spec fn side_or_range<F: Fn(&Vec<char>) -> Option<Real>>(
        self,
        section: Section,
        row: Seq<char>,
        value: Seq<char>,
        f: F,
    ) -> Result<Draft, FaultView> {
        if section == Section::Rhs {
            self.side(row, value, f)
        } else {
            self.range(row, value, f)
        }
    }

    /// A line of the RHS or RANGES section, with one pair or two.
    pub open spec fn sides<F: Fn(&Vec<char>) -> Option<Real>>(
        self,
        section: Section,
        t: Seq<Seq<char>>,
        from: int,
        pairs: int,
        f: F,
    ) -> Result<Draft, FaultView> {
        match self.side_or_range(section, t[from], t[from + 1], f) {
            Err(fault) => Err(fault),
            Ok(draft) => if pairs == 1 {
                Ok(draft)
            } else {
                draft.side_or_range(section, t[from + 2], t[from + 3], f)
            },
        }
    }

    /// A bound on a known column.
    pub open spec fn bounded(self, j: int, bounds: Bounds, explicit: bool) -> Draft {
        Draft {
            bounds: self.bounds.update(j, bounds),
            lower_set: if explicit {
                self.lower_set.update(j, true)
            } else {
                self.lower_set
            },
            ..self
        }
    }

    /// A line of the BOUNDS section.
    pub open spec fn bound<F: Fn(&Vec<char>) -> Option<Real>>(
        self,
        kind: Seq<char>,
        column: Seq<char>,
        value: Option<Seq<char>>,
        f: F,
    ) -> Result<Draft, FaultView> {
        match names::find(self.column_names, column) {
            None => Err(about(Kind::UnknownColumn, column)),
            Some(j) => {
                let b = self.bounds[j];
                let valued = kind == "UP"@ || kind == "LO"@ || kind == "FX"@;
                let bare = kind == "FR"@ || kind == "MI"@ || kind == "PL"@;
                match value {
                    Some(token) => match reading(f, token) {
                        None => Err(about(Kind::InvalidNumber, token)),
                        Some(v) => if kind == "UP"@ {
                            let lower = if v.lt(zero()) && b.lower.same(zero())
                                && !self.lower_set[j] {
                                neg_infinity()
                            } else {
                                b.lower
                            };
                            Ok(self.bounded(j, Bounds { lower, upper: v }, false))
                        } else if kind == "LO"@ {
                            Ok(self.bounded(j, Bounds { lower: v, upper: b.upper }, true))
                        } else if kind == "FX"@ {
                            Ok(self.bounded(j, Bounds::fixed(v), true))
                        } else if bare {
                            Err(about(Kind::BoundWithValue, kind))
                        } else {
                            Err(about(Kind::UnsupportedBound, kind))
                        },
                    },
                    None => if kind == "FR"@ {
                        Ok(self.bounded(j, Bounds::free(), true))
                    } else if kind == "MI"@ {
                        Ok(
                            self.bounded(
                                j,
                                Bounds { lower: neg_infinity(), upper: b.upper },
                                true,
                            ),
                        )
                    } else if kind == "PL"@ {
                        Ok(
                            self.bounded(
                                j,
                                Bounds { lower: b.lower, upper: infinity() },
                                false,
                            ),
                        )
                    } else if valued {
                        Err(about(Kind::BoundWithoutValue, kind))
                    } else {
                        Err(about(Kind::UnsupportedBound, kind))
                    },
                }
            },
        }
    }

    /// A line of the QUADOBJ section.
    pub open spec fn quadratic<F: Fn(&Vec<char>) -> Option<Real>>(
        self,
        first: Seq<char>,
        second: Seq<char>,
        value: Seq<char>,
        f: F,
    ) -> Result<Draft, FaultView> {
        match names::find(self.column_names, first) {
            None => Err(about(Kind::UnknownColumn, first)),
            Some(i) => match names::find(self.column_names, second) {
                None => Err(about(Kind::UnknownColumn, second)),
                Some(j) => match reading(f, value) {
                    None => Err(about(Kind::InvalidNumber, value)),
                    Some(v) => Ok(
                        Draft {
                            q: self.q.push(
                                if i <= j {
                                    (i as usize, j as usize, v)
                                } else {
                                    (j as usize, i as usize, v)
                                },
                            ),
                            ..self
                        },
                    ),
                },
            },
        }
    }

    /// A data line in free format.
    pub open spec fn free_line<F: Fn(&Vec<char>) -> Option<Real>>(
        self,
        section: Section,
        t: Seq<Seq<char>>,
        f: F,
    ) -> Result<Draft, FaultView> {
        let n = t.len() as int;
        match section {
            Section::Rows => if n == 2 {
                self.row(t[0], t[1])
            } else {
                Err(misshapen(Kind::RowsShape, n))
            },
            Section::Columns => if n >= 2 && t[1] == "'MARKER'"@ {
                Ok(self)
            } else if n == 3 {
                self.entry(t[0], t, 1, 1, f)
            } else if n == 5 {
                self.entry(t[0], t, 1, 2, f)
            } else {
                Err(misshapen(Kind::ColumnsShape, n))
            },
            Section::Rhs | Section::Ranges => {
                let from = n % 2;
                let pairs = n - from;
                if pairs == 2 {
                    self.sides(section, t, from, 1, f)
                } else if pairs == 4 {
                    self.sides(section, t, from, 2, f)
                } else {
                    Err(misshapen(Kind::SidesShape, n))
                }
            },
            Section::Bounds => if n == 0 {
                Err(misshapen(Kind::BoundsShape, n))
            } else if t[0] == "UP"@ || t[0] == "LO"@ || t[0] == "FX"@ {
                if n == 4 {
                    self.bound(t[0], t[2], Some(t[3]), f)
                } else if n == 3 {
                    self.bound(t[0], t[1], Some(t[2]), f)
                } else {
                    Err(misshapen(Kind::BoundsShape, n))
                }
            } else if t[0] == "FR"@ || t[0] == "MI"@ || t[0] == "PL"@ {
                if n == 3 {
                    self.bound(t[0], t[2], None, f)
                } else if n == 2 {
                    self.bound(t[0], t[1], None, f)
                } else {
                    Err(misshapen(Kind::BoundsShape, n))
                }
            } else {
                Err(about(Kind::UnsupportedBound, t[0]))
            },
            Section::QuadObj => if n == 3 {
                self.quadratic(t[0], t[1], t[2], f)
            } else {
                Err(misshapen(Kind::QuadraticShape, n))
            },
            _ => Err(plain(Kind::OutsideSection)),
        }
    }

    /// A data line in fixed format: six fields, some of them empty.
    pub open spec fn fixed_line<F: Fn(&Vec<char>) -> Option<Real>>(
        self,
        section: Section,
        t: Seq<Seq<char>>,
        f: F,
    ) -> Result<Draft, FaultView> {
        let pairs: int = if t[4].len() == 0 {
            1
        } else {
            2
        };
        match section {
            Section::Rows => self.row(t[0], t[1]),
            Section::Columns => if t[2] == "'MARKER'"@ {
                Ok(self)
            } else {
                self.entry(t[1], t, 2, pairs, f)
            },
            Section::Rhs | Section::Ranges => self.sides(section, t, 2, pairs, f),
            Section::Bounds => self.bound(
                t[0],
                t[2],
                if t[3].len() == 0 {
                    None
                } else {
                    Some(t[3])
                },
                f,
            ),
            Section::QuadObj => self.quadratic(t[1], t[2], t[3], f),
            _ => Err(plain(Kind::OutsideSection)),
        }
    }

    pub open spec fn line<F: Fn(&Vec<char>) -> Option<Real>>(
        self,
        section: Section,
        format: Format,
        t: Seq<Seq<char>>,
        f: F,
    ) -> Result<Draft, FaultView> {
        match format {
            Format::Free => self.free_line(section, t, f),
            Format::Fixed => self.fixed_line(section, t, f),
        }
    }
}

/// The text read so far, with its names indexed.
pub struct Builder {
    rows: Names,
    roles: Vec<Row>,
    constraint_names: Vec<Vec<char>>,
    kinds: Vec<RowKind>,
    has_objective: bool,
    columns: Names,
    c: Vec<Real>,
    objective_set: Vec<bool>,
    a: Vec<(usize, usize, Real)>,
    rhs: Vec<Real>,
    ranges: Vec<Option<Real>>,
    constant: Real,
    bounds: Vec<Bounds>,
    lower_set: Vec<bool>,
    q: Vec<(usize, usize, Real)>,
}

impl View for Builder {
    type V = Draft;

    closed spec fn view(&self) -> Draft {
        Draft {
            row_names: self.rows@,
            roles: self.roles@,
            constraint_names: text::texts(self.constraint_names@),
            kinds: self.kinds@,
            has_objective: self.has_objective,
            column_names: self.columns@,
            c: self.c@,
            objective_set: self.objective_set@,
            a: self.a@,
            rhs: self.rhs@,
            ranges: self.ranges@,
            constant: self.constant,
            bounds: self.bounds@,
            lower_set: self.lower_set@,
            q: self.q@,
        }
    }
}

/// A step went as the draft says it should.
pub open spec fn follows(done: Result<(), Fault>, builder: Builder, want: Result<Draft, FaultView>)
    -> bool {
    match want {
        Ok(draft) => done is Ok && builder.wf() && builder@ == draft,
        Err(fault) => done matches Err(e) && e@ == fault,
    }
}

impl Builder {
    pub closed spec fn wf(&self) -> bool {
        &&& self.rows.wf()
        &&& self.columns.wf()
        &&& self@.wf()
    }

    /// The draft of a builder fits together.
    pub proof fn drafts_fit(&self)
        requires
            self.wf(),
        ensures
            self@.wf(),
            self@.kinds.len() <= usize::MAX,
            self@.column_names.len() <= usize::MAX,
    {
        assert(self.kinds.len() == self.kinds@.len());
        assert(self.columns.wf());
        self.columns.fits();
    }

    pub fn new() -> (builder: Self)
        ensures
            builder.wf(),
            builder@ == Draft::blank(),
    {
        let builder = Builder {
            rows: Names::new(),
            roles: Vec::new(),
            constraint_names: Vec::new(),
            kinds: Vec::new(),
            has_objective: false,
            columns: Names::new(),
            c: Vec::new(),
            objective_set: Vec::new(),
            a: Vec::new(),
            rhs: Vec::new(),
            ranges: Vec::new(),
            constant: zero(),
            bounds: Vec::new(),
            lower_set: Vec::new(),
            q: Vec::new(),
        };
        assert(builder@ =~= Draft::blank());
        builder
    }

    fn row(&mut self, kind: &Vec<char>, name: &Vec<char>) -> (done: Result<(), Fault>)
        requires
            old(self).wf(),
        ensures
            follows(done, *final(self), old(self)@.row(kind@, name@)),
    {
        let ghost start = *self;
        if name.len() == 0 {
            return Err(plain_fault(Kind::RowWithoutName));
        }
        let objective = text::is_word(kind, "N");
        let equal = text::is_word(kind, "E");
        let less = text::is_word(kind, "L");
        let greater = text::is_word(kind, "G");
        if !objective && !equal && !less && !greater {
            return Err(fault_about(Kind::UnknownRowType, kind));
        }
        let known = match self.rows.get(name) {
            Some(_) => true,
            None => false,
        };
        if known {
            return Err(fault_about(Kind::RowTwice, name));
        }
        self.rows.push(text::copy(name));
        if objective {
            if self.has_objective {
                self.roles.push(Row::Free);
            } else {
                self.roles.push(Row::Objective);
            }
            self.has_objective = true;
        } else {
            let place: usize = self.kinds.len();
            self.roles.push(Row::Constraint(place));
            self.kinds.push(
                if equal {
                    RowKind::Equal
                } else if less {
                    RowKind::Less
                } else {
                    RowKind::Greater
                },
            );
            self.constraint_names.push(text::copy(name));
            self.rhs.push(zero());
            self.ranges.push(None);
        }
        proof {
            let want = start@.row(kind@, name@)->Ok_0;
            assert(text::texts(self.constraint_names@) =~= want.constraint_names);
            assert(self@ =~= want);
            self.rows.fits();
        }
        Ok(())
    }

    fn find_row(&self, name: &Vec<char>) -> (row: Result<Row, Fault>)
        requires
            self.wf(),
        ensures
            match names::find(self@.row_names, name@) {
                Some(r) => row == Ok::<Row, Fault>(self@.roles[r]) && 0 <= r < self@.roles.len(),
                None => row matches Err(fault) && fault@ == about(Kind::UnknownRow, name@),
            },
    {
        match self.rows.get(name) {
            Some(r) => Ok(self.roles[r]),
            None => Err(fault_about(Kind::UnknownRow, name)),
        }
    }

    fn find_column(&self, name: &Vec<char>) -> (column: Result<usize, Fault>)
        requires
            self.wf(),
        ensures
            match names::find(self@.column_names, name@) {
                Some(j) => column matches Ok(k) && k == j && k < self@.column_names.len(),
                None => column matches Err(fault) && fault@ == about(Kind::UnknownColumn, name@),
            },
    {
        match self.columns.get(name) {
            Some(j) => Ok(j),
            None => Err(fault_about(Kind::UnknownColumn, name)),
        }
    }

    /// The column of a name, appended if it is new.
    fn column(&mut self, name: &Vec<char>) -> (j: usize)
        requires
            old(self).wf(),
        ensures
            final(self).wf(),
            final(self)@ == old(self)@.with_column(name@),
            names::find(final(self)@.column_names, name@) == Some(j as int),
            j < final(self)@.column_names.len(),
    {
        let ghost start = *self;
        match self.columns.get(name) {
            Some(j) => j,
            None => {
                let j: usize = self.columns.len();
                self.columns.push(text::copy(name));
                self.c.push(zero());
                self.objective_set.push(false);
                self.bounds.push(Bounds { lower: zero(), upper: infinity() });
                self.lower_set.push(false);
                proof {
                    assert(self@ =~= start@.with_column(name@));
                    self.columns.fits();
                    names::found_where_it_stands(self@.column_names, j as int);
                }
                j
            },
        }
    }

    fn coefficient<F: Fn(&Vec<char>) -> Option<Real>>(
        &mut self,
        column: &Vec<char>,
        j: usize,
        row: &Vec<char>,
        value: &Vec<char>,
        f: &F,
    ) -> (done: Result<(), Fault>)
        requires
            old(self).wf(),
            reads_numbers(*f),
            names::find(old(self)@.column_names, column@) == Some(j as int),
            j < old(self)@.column_names.len(),
        ensures
            follows(done, *final(self), old(self)@.coefficient(column@, row@, value@, *f)),
            final(self)@.column_names == old(self)@.column_names,
    {
        let ghost start = *self;
        let v = match number(value, f) {
            Ok(v) => v,
            Err(fault) => {
                return Err(fault);
            },
        };
        let role = match self.find_row(row) {
            Ok(role) => role,
            Err(fault) => {
                return Err(fault);
            },
        };
        match role {
            Row::Objective => {
                if self.objective_set[j] {
                    return Err(fault_about(Kind::ObjectiveTwice, column));
                }
                self.objective_set.set(j, true);
                self.c.set(j, v);
            },
            Row::Free => {},
            Row::Constraint(i) => {
                self.a.push((i, j, v));
            },
        }
        assert(self@ =~= start@.coefficient(column@, row@, value@, *f)->Ok_0);
        Ok(())
    }

    fn entry<F: Fn(&Vec<char>) -> Option<Real>>(
        &mut self,
        column: &Vec<char>,
        t: &Vec<Vec<char>>,
        from: usize,
        pairs: usize,
        f: &F,
    ) -> (done: Result<(), Fault>)
        requires
            old(self).wf(),
            reads_numbers(*f),
            1 <= pairs <= 2,
            from + 2 * pairs <= t@.len(),
        ensures
            follows(
                done,
                *final(self),
                old(self)@.entry(column@, text::texts(t@), from as int, pairs as int, *f),
            ),
    {
        if column.len() == 0 {
            return Err(plain_fault(Kind::ColumnWithoutName));
        }
        assert(t.len() == t@.len());
        let j: usize = self.column(column);
        match self.coefficient(column, j, &t[from], &t[from + 1], f) {
            Ok(()) => {},
            Err(fault) => {
                return Err(fault);
            },
        }
        if pairs == 1 {
            return Ok(());
        }
        self.coefficient(column, j, &t[from + 2], &t[from + 3], f)
    }

    fn side_or_range<F: Fn(&Vec<char>) -> Option<Real>>(
        &mut self,
        section: Section,
        row: &Vec<char>,
        value: &Vec<char>,
        f: &F,
    ) -> (done: Result<(), Fault>)
        requires
            old(self).wf(),
            reads_numbers(*f),
        ensures
            follows(done, *final(self), old(self)@.side_or_range(section, row@, value@, *f)),
    {
        let ghost start = *self;
        let v = match number(value, f) {
            Ok(v) => v,
            Err(fault) => {
                return Err(fault);
            },
        };
        let role = match self.find_row(row) {
            Ok(role) => role,
            Err(fault) => {
                return Err(fault);
            },
        };
        let rhs = match section {
            Section::Rhs => true,
            _ => false,
        };
        match role {
            Row::Objective => {
                if rhs {
                    self.constant = v.neg();
                }
            },
            Row::Free => {},
            Row::Constraint(i) => {
                if rhs {
                    self.rhs.set(i, v);
                } else {
                    self.ranges.set(i, Some(v));
                }
            },
        }
        assert(self@ =~= start@.side_or_range(section, row@, value@, *f)->Ok_0);
        Ok(())
    }

    fn sides<F: Fn(&Vec<char>) -> Option<Real>>(
        &mut self,
        section: Section,
        t: &Vec<Vec<char>>,
        from: usize,
        pairs: usize,
        f: &F,
    ) -> (done: Result<(), Fault>)
        requires
            old(self).wf(),
            reads_numbers(*f),
            1 <= pairs <= 2,
            from + 2 * pairs <= t@.len(),
        ensures
            follows(
                done,
                *final(self),
                old(self)@.sides(section, text::texts(t@), from as int, pairs as int, *f),
            ),
    {
        assert(t.len() == t@.len());
        match self.side_or_range(section, &t[from], &t[from + 1], f) {
            Ok(()) => {},
            Err(fault) => {
                return Err(fault);
            },
        }
        if pairs == 1 {
            return Ok(());
        }
        self.side_or_range(section, &t[from + 2], &t[from + 3], f)
    }

    fn bound<F: Fn(&Vec<char>) -> Option<Real>>(
        &mut self,
        kind: &Vec<char>,
        column: &Vec<char>,
        value: Option<&Vec<char>>,
        f: &F,
    ) -> (done: Result<(), Fault>)
        requires
            old(self).wf(),
            reads_numbers(*f),
        ensures
            follows(
                done,
                *final(self),
                old(self)@.bound(
                    kind@,
                    column@,
                    match value {
                        Some(token) => Some(token@),
                        None => None,
                    },
                    *f,
                ),
            ),
    {
        let ghost start = *self;
        let j: usize = match self.find_column(column) {
            Ok(j) => j,
            Err(fault) => {
                return Err(fault);
            },
        };
        let read: Option<Real> = match value {
            Some(token) => match number(token, f) {
                Ok(v) => Some(v),
                Err(fault) => {
                    return Err(fault);
                },
            },
            None => None,
        };
        let b = self.bounds[j];
        let up = text::is_word(kind, "UP");
        let lo = text::is_word(kind, "LO");
        let fx = text::is_word(kind, "FX");
        let fr = text::is_word(kind, "FR");
        let mi = text::is_word(kind, "MI");
        let pl = text::is_word(kind, "PL");
        proof {
            reveal_strlit("UP");
            reveal_strlit("LO");
            reveal_strlit("FX");
            reveal_strlit("FR");
            reveal_strlit("MI");
            reveal_strlit("PL");
        }
        match read {
            Some(v) => {
                if up {
                    let lower = if v.less(zero()) && b.lower.equals(zero())
                        && !self.lower_set[j] {
                        neg_infinity()
                    } else {
                        b.lower
                    };
                    self.bounds.set(j, Bounds { lower, upper: v });
                } else if lo {
                    self.bounds.set(j, Bounds { lower: v, upper: b.upper });
                    self.lower_set.set(j, true);
                } else if fx {
                    self.bounds.set(j, Bounds::fixed(v));
                    self.lower_set.set(j, true);
                } else if fr || mi || pl {
                    return Err(fault_about(Kind::BoundWithValue, kind));
                } else {
                    return Err(fault_about(Kind::UnsupportedBound, kind));
                }
            },
            None => {
                if fr {
                    self.bounds.set(j, Bounds::free());
                    self.lower_set.set(j, true);
                } else if mi {
                    self.bounds.set(j, Bounds { lower: neg_infinity(), upper: b.upper });
                    self.lower_set.set(j, true);
                } else if pl {
                    self.bounds.set(j, Bounds { lower: b.lower, upper: infinity() });
                } else if up || lo || fx {
                    return Err(fault_about(Kind::BoundWithoutValue, kind));
                } else {
                    return Err(fault_about(Kind::UnsupportedBound, kind));
                }
            },
        }
        assert(self@ =~= start@.bound(
            kind@,
            column@,
            match value {
                Some(token) => Some(token@),
                None => None,
            },
            *f,
        )->Ok_0);
        Ok(())
    }

    fn quadratic<F: Fn(&Vec<char>) -> Option<Real>>(
        &mut self,
        first: &Vec<char>,
        second: &Vec<char>,
        value: &Vec<char>,
        f: &F,
    ) -> (done: Result<(), Fault>)
        requires
            old(self).wf(),
            reads_numbers(*f),
        ensures
            follows(done, *final(self), old(self)@.quadratic(first@, second@, value@, *f)),
    {
        let ghost start = *self;
        let i: usize = match self.find_column(first) {
            Ok(i) => i,
            Err(fault) => {
                return Err(fault);
            },
        };
        let j: usize = match self.find_column(second) {
            Ok(j) => j,
            Err(fault) => {
                return Err(fault);
            },
        };
        let v = match number(value, f) {
            Ok(v) => v,
            Err(fault) => {
                return Err(fault);
            },
        };
        if i <= j {
            self.q.push((i, j, v));
        } else {
            self.q.push((j, i, v));
        }
        assert(self@ =~= start@.quadratic(first@, second@, value@, *f)->Ok_0);
        Ok(())
    }

    fn free_line<F: Fn(&Vec<char>) -> Option<Real>>(
        &mut self,
        section: Section,
        t: &Vec<Vec<char>>,
        f: &F,
    ) -> (done: Result<(), Fault>)
        requires
            old(self).wf(),
            reads_numbers(*f),
        ensures
            follows(done, *final(self), old(self)@.free_line(section, text::texts(t@), *f)),
    {
        let n: usize = t.len();
        match section {
            Section::Rows => {
                if n == 2 {
                    self.row(&t[0], &t[1])
                } else {
                    Err(shape(Kind::RowsShape, n))
                }
            },
            Section::Columns => {
                if n >= 2 && text::is_word(&t[1], "'MARKER'") {
                    Ok(())
                } else if n == 3 {
                    self.entry(&t[0], t, 1, 1, f)
                } else if n == 5 {
                    self.entry(&t[0], t, 1, 2, f)
                } else {
                    Err(shape(Kind::ColumnsShape, n))
                }
            },
            Section::Rhs | Section::Ranges => {
                let from: usize = n % 2;
                let pairs: usize = n - from;
                if pairs == 2 {
                    self.sides(section, t, from, 1, f)
                } else if pairs == 4 {
                    self.sides(section, t, from, 2, f)
                } else {
                    Err(shape(Kind::SidesShape, n))
                }
            },
            Section::Bounds => {
                if n == 0 {
                    return Err(shape(Kind::BoundsShape, n));
                }
                let valued = text::is_word(&t[0], "UP") || text::is_word(&t[0], "LO")
                    || text::is_word(&t[0], "FX");
                let bare = text::is_word(&t[0], "FR") || text::is_word(&t[0], "MI")
                    || text::is_word(&t[0], "PL");
                if valued {
                    if n == 4 {
                        self.bound(&t[0], &t[2], Some(&t[3]), f)
                    } else if n == 3 {
                        self.bound(&t[0], &t[1], Some(&t[2]), f)
                    } else {
                        Err(shape(Kind::BoundsShape, n))
                    }
                } else if bare {
                    if n == 3 {
                        self.bound(&t[0], &t[2], None, f)
                    } else if n == 2 {
                        self.bound(&t[0], &t[1], None, f)
                    } else {
                        Err(shape(Kind::BoundsShape, n))
                    }
                } else {
                    Err(fault_about(Kind::UnsupportedBound, &t[0]))
                }
            },
            Section::QuadObj => {
                if n == 3 {
                    self.quadratic(&t[0], &t[1], &t[2], f)
                } else {
                    Err(shape(Kind::QuadraticShape, n))
                }
            },
            _ => Err(plain_fault(Kind::OutsideSection)),
        }
    }

    fn fixed_line<F: Fn(&Vec<char>) -> Option<Real>>(
        &mut self,
        section: Section,
        t: &Vec<Vec<char>>,
        f: &F,
    ) -> (done: Result<(), Fault>)
        requires
            old(self).wf(),
            reads_numbers(*f),
            t@.len() == 6,
        ensures
            follows(done, *final(self), old(self)@.fixed_line(section, text::texts(t@), *f)),
    {
        let pairs: usize = if t[4].len() == 0 {
            1
        } else {
            2
        };
        match section {
            Section::Rows => self.row(&t[0], &t[1]),
            Section::Columns => {
                if text::is_word(&t[2], "'MARKER'") {
                    Ok(())
                } else {
                    self.entry(&t[1], t, 2, pairs, f)
                }
            },
            Section::Rhs | Section::Ranges => self.sides(section, t, 2, pairs, f),
            Section::Bounds => {
                if t[3].len() == 0 {
                    self.bound(&t[0], &t[2], None, f)
                } else {
                    self.bound(&t[0], &t[2], Some(&t[3]), f)
                }
            },
            Section::QuadObj => self.quadratic(&t[1], &t[2], &t[3], f),
            _ => Err(plain_fault(Kind::OutsideSection)),
        }
    }

    /// Read a data line.
    pub fn line<F: Fn(&Vec<char>) -> Option<Real>>(
        &mut self,
        section: Section,
        format: Format,
        t: &Vec<Vec<char>>,
        f: &F,
    ) -> (done: Result<(), Fault>)
        requires
            old(self).wf(),
            reads_numbers(*f),
            format is Fixed ==> t@.len() == 6,
        ensures
            follows(done, *final(self), old(self)@.line(section, format, text::texts(t@), *f)),
    {
        match format {
            Format::Free => self.free_line(section, t, f),
            Format::Fixed => self.fixed_line(section, t, f),
        }
    }
}

/// Bytes of a character.
pub open spec fn width(c: char) -> int {
    let n = c as u32;
    if n < 0x80 {
        1
    } else if n < 0x800 {
        2
    } else if n < 0x1_0000 {
        3
    } else {
        4
    }
}

/// Bytes of the first `k` characters.
pub open spec fn offset(s: Seq<char>, k: int) -> int
    decreases k,
{
    if k <= 0 {
        0
    } else {
        offset(s, k - 1) + width(s[k - 1])
    }
}

proof fn offset_grows(s: Seq<char>, k: int, l: int)
    requires
        0 <= k <= l,
    ensures
        offset(s, k) + (l - k) <= offset(s, l) <= offset(s, k) + 4 * (l - k),
    decreases l - k,
{
    if k < l {
        offset_grows(s, k, l - 1);
    }
}

/// The character that starts at a byte.
pub open spec fn boundary(s: Seq<char>, b: int) -> Option<int> {
    if exists|k: int| 0 <= k <= s.len() && #[trigger] offset(s, k) == b {
        Some(choose|k: int| 0 <= k <= s.len() && #[trigger] offset(s, k) == b)
    } else {
        None
    }
}

proof fn boundary_is(s: Seq<char>, k: int)
    requires
        0 <= k <= s.len(),
    ensures
        boundary(s, offset(s, k)) == Some(k),
{
    let b = offset(s, k);
    let l = choose|l: int| 0 <= l <= s.len() && #[trigger] offset(s, l) == b;
    if l < k {
        offset_grows(s, l, k);
    } else if k < l {
        offset_grows(s, k, l);
    }
}

/// A field of a fixed-format line, given by bytes; none if a character lies
/// across one of its ends.
pub open spec fn field(s: Seq<char>, start: int, end: int) -> Option<Seq<char>> {
    let total = offset(s, s.len() as int);
    let e = if end < total {
        end
    } else {
        total
    };
    if start >= e {
        Some(Seq::empty())
    } else {
        match (boundary(s, start), boundary(s, e)) {
            (Some(k), Some(l)) => Some(text::trimmed(s.subrange(k, l))),
            _ => None,
        }
    }
}

fn field_of(s: &Vec<char>, start: u64, end: u64) -> (part: Option<Vec<char>>)
    ensures
        match part {
            Some(chars) => field(s@, start as int, end as int) == Some(chars@),
            None => field(s@, start as int, end as int) is None,
        },
{
    let mut at: u128 = 0;
    let mut first: Option<usize> = None;
    let mut last: Option<usize> = None;
    let mut k: usize = 0;
    while k < s.len()
        invariant
            k <= s@.len(),
            at == offset(s@, k as int),
            at <= 4 * k,
            match first {
                Some(a) => a < k && offset(s@, a as int) == start,
                None => forall|a: int| 0 <= a < k ==> #[trigger] offset(s@, a) != start,
            },
            match last {
                Some(a) => a < k && offset(s@, a as int) == end,
                None => forall|a: int| 0 <= a < k ==> #[trigger] offset(s@, a) != end,
            },
        decreases s@.len() - k,
    {
        if at == start as u128 {
            first = Some(k);
        }
        if at == end as u128 {
            last = Some(k);
        }
        let n: u32 = s[k] as u32;
        let w: u128 = if n < 0x80 {
            1
        } else if n < 0x800 {
            2
        } else if n < 0x1_0000 {
            3
        } else {
            4
        };
        at = at + w;
        k = k + 1;
        assert(offset(s@, k as int) == offset(s@, k - 1) + width(s@[k - 1]));
    }
    let e: u128 = if (end as u128) < at {
        end as u128
    } else {
        at
    };
    if start as u128 >= e {
        let empty: Vec<char> = Vec::new();
        assert(empty@ =~= Seq::<char>::empty());
        return Some(empty);
    }
    let stop: Option<usize> = if e == at {
        Some(k)
    } else {
        last
    };
    match (first, stop) {
        (Some(from), Some(to)) => {
            proof {
                boundary_is(s@, from as int);
                boundary_is(s@, to as int);
                if to < from {
                    offset_grows(s@, to as int, from as int);
                }
            }
            Some(text::trim(s, from, to))
        },
        _ => {
            proof {
                if first is None && boundary(s@, start as int) is Some {
                    let a = choose|a: int|
                        0 <= a <= s@.len() && #[trigger] offset(s@, a) == start;
                    assert(offset(s@, a) == start);
                }
                if stop is None && boundary(s@, e as int) is Some {
                    let a = choose|a: int| 0 <= a <= s@.len() && #[trigger] offset(s@, a) == e;
                    assert(offset(s@, a) == end);
                }
            }
            None
        },
    }
}

/// The six fields of a fixed-format line.
pub open spec fn fields(s: Seq<char>) -> Option<Seq<Seq<char>>> {
    match (
        field(s, 1, 3),
        field(s, 4, 12),
        field(s, 14, 22),
        field(s, 24, 36),
        field(s, 39, 47),
        field(s, 49, u64::MAX as int),
    ) {
        (Some(a), Some(b), Some(c), Some(d), Some(e), Some(f)) => Some(seq![a, b, c, d, e, f]),
        _ => None,
    }
}

/// Split a fixed-format line into its six fields, trimmed. Empty fields are
/// kept so field positions stay meaningful.
pub fn fixed_fields(s: &Vec<char>) -> (list: Option<Vec<Vec<char>>>)
    ensures
        match list {
            Some(t) => t@.len() == 6 && fields(s@) == Some(text::texts(t@)),
            None => fields(s@) is None,
        },
{
    let mut list: Vec<Vec<char>> = Vec::new();
    let a = match field_of(s, 1, 3) {
        Some(part) => part,
        None => {
            return None;
        },
    };
    let b = match field_of(s, 4, 12) {
        Some(part) => part,
        None => {
            return None;
        },
    };
    let c = match field_of(s, 14, 22) {
        Some(part) => part,
        None => {
            return None;
        },
    };
    let d = match field_of(s, 24, 36) {
        Some(part) => part,
        None => {
            return None;
        },
    };
    let e = match field_of(s, 39, 47) {
        Some(part) => part,
        None => {
            return None;
        },
    };
    let f = match field_of(s, 49, u64::MAX) {
        Some(part) => part,
        None => {
            return None;
        },
    };
    let ghost want = seq![a@, b@, c@, d@, e@, f@];
    list.push(a);
    list.push(b);
    list.push(c);
    list.push(d);
    list.push(e);
    list.push(f);
    assert(text::texts(list@) =~= want);
    Some(list)
}


impl Builder {
    /// Everything read, without the indices of names.
    pub fn into_parts(self) -> (parts: Parts)
        requires
            self.wf(),
        ensures
            parts@ == self@,
            self@.wf(),
    {
        let parts = Parts {
            rows: self.rows,
            roles: self.roles,
            constraint_names: self.constraint_names,
            kinds: self.kinds,
            has_objective: self.has_objective,
            columns: self.columns,
            c: self.c,
            objective_set: self.objective_set,
            a: self.a,
            rhs: self.rhs,
            ranges: self.ranges,
            constant: self.constant,
            bounds: self.bounds,
            lower_set: self.lower_set,
            q: self.q,
        };
        assert(parts@ =~= self@);
        parts
    }
}

/// The parts of a finished builder.
pub struct Parts {
    pub rows: Names,
    pub roles: Vec<Row>,
    pub constraint_names: Vec<Vec<char>>,
    pub kinds: Vec<RowKind>,
    pub has_objective: bool,
    pub columns: Names,
    pub c: Vec<Real>,
    pub objective_set: Vec<bool>,
    pub a: Vec<(usize, usize, Real)>,
    pub rhs: Vec<Real>,
    pub ranges: Vec<Option<Real>>,
    pub constant: Real,
    pub bounds: Vec<Bounds>,
    pub lower_set: Vec<bool>,
    pub q: Vec<(usize, usize, Real)>,
}

impl View for Parts {
    type V = Draft;

    open spec fn view(&self) -> Draft {
        Draft {
            row_names: self.rows@,
            roles: self.roles@,
            constraint_names: text::texts(self.constraint_names@),
            kinds: self.kinds@,
            has_objective: self.has_objective,
            column_names: self.columns@,
            c: self.c@,
            objective_set: self.objective_set@,
            a: self.a@,
            rhs: self.rhs@,
            ranges: self.ranges@,
            constant: self.constant,
            bounds: self.bounds@,
            lower_set: self.lower_set@,
            q: self.q@,
        }
    }
}

} // verus!
