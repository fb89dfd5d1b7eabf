//! A problem from the sections of an MPS file that was already taken apart.

use crate::arithmetic::Arithmetic;
use crate::bounds::Bounds;
use crate::csc::{CscMatrix, MatrixError};
use crate::names::{self, Names};
use crate::number::{infinity, neg_infinity, one, zero, Real};
use crate::problem::{Constraint, Problem};
use crate::shift::SMALL_SHARE;
use crate::summation;
use crate::tape::HALF;
use crate::text;
use vstd::prelude::*;

verus! {

/// What a row demands.
#[derive(Clone, Copy, Debug, PartialEq, Eq, Structural)]
pub enum RowType {
    Eq,
    Leq,
    Geq,
    /// No demand: an objective row.
    Nr,
}

/// What a bound line sets.
#[derive(Clone, Copy, Debug, PartialEq, Eq, Structural)]
pub enum BoundType {
    Lo,
    Up,
    Fx,
    Fr,
    Mi,
    Pl,
    /// A bound of an integer variable.
    Discrete,
}

pub struct RowLine {
    pub kind: RowType,
    pub name: Vec<char>,
}

/// A value for a row, in a column or in a named set.
pub struct PairLine {
    pub name: Vec<char>,
    pub row: Vec<char>,
    pub value: Real,
}

pub struct BoundLine {
    pub kind: BoundType,
    pub set: Vec<char>,
    pub column: Vec<char>,
    pub value: Option<Real>,
}

pub struct TermLine {
    pub first: Vec<char>,
    pub second: Vec<char>,
    pub coefficient: Real,
}

/// The sections of a file.
pub struct Source {
    pub objective_name: Option<Vec<char>>,
    pub maximise: bool,
    pub rows: Vec<RowLine>,
    pub columns: Vec<PairLine>,
    pub rhs: Vec<PairLine>,
    pub ranges: Vec<PairLine>,
    pub bounds: Vec<BoundLine>,
    pub quadratic: Option<Vec<TermLine>>,
}

/// Why the sections make no problem.
#[derive(Clone, Copy, Debug, PartialEq, Eq, Structural)]
pub enum SourceError {
    MissingObjective,
    /// A bound of this type needs a value.
    MissingValue(BoundType),
    /// Only continuous variables are supported.
    Discrete,
    /// Two mirrored Hessian entries differ.
    Asymmetric,
    Matrix(MatrixError),
}

/// The names of columns, in the order of their first appearance.
pub open spec fn column_names(lines: Seq<PairLine>, list: Seq<Seq<char>>, k: int) -> Seq<Seq<char>>
    decreases lines.len() - k,
{
    if k >= lines.len() {
        list
    } else {
        let name = lines[k].name@;
        column_names(
            lines,
            if names::find(list, name) is None {
                list.push(name)
            } else {
                list
            },
            k + 1,
        )
    }
}

/// The rows with a demand, from place `k` on.
pub open spec fn demands(rows: Seq<RowLine>, list: Seq<(Seq<char>, RowType)>, k: int) -> Seq<
    (Seq<char>, RowType),
>
    decreases rows.len() - k,
{
    if k >= rows.len() {
        list
    } else {
        demands(
            rows,
            if rows[k].kind is Nr {
                list
            } else {
                list.push((rows[k].name@, rows[k].kind))
            },
            k + 1,
        )
    }
}

/// The last row with this name.
pub open spec fn row_place(rows: Seq<(Seq<char>, RowType)>, name: Seq<char>) -> Option<int>
    decreases rows.len(),
{
    if rows.len() == 0 {
        None
    } else if rows.last().0 == name {
        Some(rows.len() - 1)
    } else {
        row_place(rows.drop_last(), name)
    }
}

/// The name of the first row without a demand, from place `k` on.
pub open spec fn first_free_row(rows: Seq<RowLine>, k: int) -> Option<Seq<char>>
    decreases rows.len() - k,
{
    if k >= rows.len() {
        None
    } else if rows[k].kind is Nr {
        Some(rows[k].name@)
    } else {
        first_free_row(rows, k + 1)
    }
}

/// The name of the objective row.
pub open spec fn objective_row(source: Source) -> Option<Seq<char>> {
    match source.objective_name {
        Some(name) => Some(name@),
        None => first_free_row(source.rows@, 0),
    }
}

pub open spec fn signed(maximise: bool, v: Real) -> Real {
    if maximise {
        v.opposite()
    } else {
        v
    }
}

fn sign(maximise: bool, v: Real) -> (r: Real)
    ensures
        r == signed(maximise, v),
{
    if maximise {
        v.neg()
    } else {
        v
    }
}

/// Rows found by their names.
pub struct RowIndex {
    names: Names,
    places: Vec<usize>,
}

impl RowIndex {
    /// Every name leads to the last of the rows that have it.
    pub closed spec fn finds(&self, rows: Seq<(Seq<char>, RowType)>) -> bool {
        &&& self.names.wf()
        &&& self.places@.len() == self.names@.len()
        &&& forall|k: int|
            0 <= k < self.places@.len() ==> row_place(rows, self.names@[k]) == Some(
                #[trigger] self.places@[k] as int,
            )
        &&& forall|i: int|
            0 <= i < rows.len() ==> names::find(self.names@, (#[trigger] rows[i]).0) is Some
    }

    fn new() -> (index: Self)
        ensures
            index.finds(Seq::empty()),
    {
        RowIndex { names: Names::new(), places: Vec::new() }
    }

    fn put(&mut self, name: &Vec<char>, Ghost(rows): Ghost<Seq<(Seq<char>, RowType)>>, Ghost(
        kind,
    ): Ghost<RowType>, at: usize)
        requires
            old(self).finds(rows),
            at == rows.len(),
        ensures
            final(self).finds(rows.push((name@, kind))),
    {
        let ghost start = *self;
        let ghost more = rows.push((name@, kind));
        let found = self.names.get(name);
        match found {
            Some(k) => {
                self.places.set(k, at);
            },
            None => {
                self.names.push(text::copy(name));
                self.places.push(at);
            },
        }
        proof {
            assert(more.drop_last() =~= rows);
            self.names.fits();
            start.names.fits();
            assert forall|k: int| 0 <= k < self.places@.len() implies row_place(
                more,
                self.names@[k],
            ) == Some(#[trigger] self.places@[k] as int) by {
                if k < start.places@.len() {
                    assert(start.names@[k] == self.names@[k]);
                    assert(row_place(rows, start.names@[k]) == Some(start.places@[k] as int));
                    if start.names@[k] == name@ {
                        names::found_where_it_stands(start.names@, k);
                    }
                } else {
                    assert(self.names@[k] == name@);
                }
            }
            assert forall|i: int| 0 <= i < more.len() implies names::find(
                self.names@,
                (#[trigger] more[i]).0,
            ) is Some by {
                let x = more[i].0;
                if i < rows.len() {
                    assert(names::find(start.names@, rows[i].0) is Some);
                    let k = choose|k: int|
                        0 <= k < start.names@.len() && #[trigger] start.names@[k] == x;
                    assert(self.names@[k] == x);
                } else {
                    match found {
                        Some(k) => {
                            assert(self.names@[k as int] == x);
                        },
                        None => {
                            assert(self.names@[start.names@.len() as int] == x);
                        },
                    }
                }
            }
        }
    }

    fn get(&self, name: &Vec<char>, Ghost(rows): Ghost<Seq<(Seq<char>, RowType)>>) -> (place:
        Option<usize>)
        requires
            self.finds(rows),
        ensures
            match place {
                Some(i) => row_place(rows, name@) == Some(i as int) && i < rows.len(),
                None => row_place(rows, name@) is None,
            },
    {
        match self.names.get(name) {
            Some(k) => {
                proof {
                    assert(self.names@[k as int] == name@);
                    assert(row_place(rows, self.names@[k as int]) == Some(
                        self.places@[k as int] as int,
                    ));
                    place_is_a_row(rows, name@);
                }
                Some(self.places[k])
            },
            None => {
                proof {
                    place_is_a_row(rows, name@);
                    if row_place(rows, name@) is Some {
                        let i = row_place(rows, name@)->Some_0;
                        assert(names::find(self.names@, rows[i].0) is Some);
                    }
                }
                None
            },
        }
    }
}

proof fn place_is_a_row(rows: Seq<(Seq<char>, RowType)>, name: Seq<char>)
    ensures
        row_place(rows, name) matches Some(i) ==> 0 <= i < rows.len() && rows[i].0 == name,
    decreases rows.len(),
{
    if rows.len() > 0 {
        place_is_a_row(rows.drop_last(), name);
    }
}

/// Costs and coefficients, as far as they were read.
pub ghost struct Entered {
    pub c: Seq<Real>,
    pub rows: Seq<usize>,
    pub columns: Seq<usize>,
    pub values: Seq<Real>,
}

/// The lines belong to the first named set.
pub open spec fn in_first_set(lines: Seq<PairLine>, k: int) -> bool {
    lines[k].name@ == lines[0].name@
}

/// The place of a column that is known to exist.
pub open spec fn column_at(columns: Seq<Seq<char>>, name: Seq<char>) -> int {
    match names::find(columns, name) {
        Some(j) => j,
        None => 0,
    }
}

/// The right-hand sides with the constant.
pub ghost struct Sided {
    pub rhs: Seq<Real>,
    pub constant: Real,
}

/// The right-hand sides, from place `k` on. The last value of a row counts.
pub open spec fn sided(
    lines: Seq<PairLine>,
    rows: Seq<(Seq<char>, RowType)>,
    objective: Seq<char>,
    maximise: bool,
    s: Sided,
    k: int,
) -> Sided
    decreases lines.len() - k,
{
    if k >= lines.len() {
        s
    } else {
        sided(
            lines,
            rows,
            objective,
            maximise,
            if !in_first_set(lines, k) {
                s
            } else if lines[k].row@ == objective {
                Sided { constant: signed(maximise, lines[k].value).opposite(), ..s }
            } else {
                match row_place(rows, lines[k].row@) {
                    Some(i) => Sided { rhs: s.rhs.update(i, lines[k].value), ..s },
                    None => s,
                }
            },
            k + 1,
        )
    }
}

/// The interval of a row without a range.
pub open spec fn demanded(kind: RowType, b: Real) -> Bounds {
    match kind {
        RowType::Eq => Bounds { lower: b, upper: b },
        RowType::Leq => Bounds { lower: neg_infinity(), upper: b },
        RowType::Geq => Bounds { lower: b, upper: infinity() },
        RowType::Nr => Bounds { lower: neg_infinity(), upper: infinity() },
    }
}

fn demand(kind: RowType, b: Real) -> (r: Bounds)
    ensures
        r == demanded(kind, b),
{
    match kind {
        RowType::Eq => Bounds { lower: b, upper: b },
        RowType::Leq => Bounds { lower: neg_infinity(), upper: b },
        RowType::Geq => Bounds { lower: b, upper: infinity() },
        RowType::Nr => Bounds { lower: neg_infinity(), upper: infinity() },
    }
}

/// What one bound line makes of an interval.
pub open spec fn bound_set(line: BoundLine, b: Bounds) -> Result<Bounds, SourceError> {
    match (line.kind, line.value) {
        (BoundType::Lo, Some(v)) => Ok(Bounds { lower: v, ..b }),
        (BoundType::Up, Some(v)) => Ok(Bounds { upper: v, ..b }),
        (BoundType::Fx, Some(v)) => Ok(Bounds { lower: v, upper: v }),
        (BoundType::Fr, _) => Ok(Bounds { lower: neg_infinity(), upper: infinity() }),
        (BoundType::Mi, _) => Ok(Bounds { lower: neg_infinity(), upper: zero() }),
        (BoundType::Pl, _) => Ok(Bounds { lower: zero(), upper: infinity() }),
        (BoundType::Discrete, _) => Err(SourceError::Discrete),
        (kind, None) => Err(SourceError::MissingValue(kind)),
    }
}

fn set_bound(line: &BoundLine, b: Bounds) -> (r: Result<Bounds, SourceError>)
    ensures
        r == bound_set(*line, b),
{
    match line.kind {
        BoundType::Fr => Ok(Bounds { lower: neg_infinity(), upper: infinity() }),
        BoundType::Mi => Ok(Bounds { lower: neg_infinity(), upper: zero() }),
        BoundType::Pl => Ok(Bounds { lower: zero(), upper: infinity() }),
        BoundType::Discrete => Err(SourceError::Discrete),
        kind => match line.value {
            None => Err(SourceError::MissingValue(kind)),
            Some(v) => match kind {
                BoundType::Lo => Ok(Bounds { lower: v, upper: b.upper }),
                BoundType::Up => Ok(Bounds { lower: b.lower, upper: v }),
                _ => Ok(Bounds { lower: v, upper: v }),
            },
        },
    }
}

/// The intervals of the variables after the bound lines of the first set, from
/// place `k` on.
pub open spec fn bounded(
    lines: Seq<BoundLine>,
    columns: Seq<Seq<char>>,
    list: Seq<Bounds>,
    k: int,
) -> Result<Seq<Bounds>, SourceError>
    decreases lines.len() - k,
{
    if k >= lines.len() {
        Ok(list)
    } else if lines[k].set@ != lines[0].set@ {
        bounded(lines, columns, list, k + 1)
    } else {
        let j = column_at(columns, lines[k].column@);
        match bound_set(lines[k], list[j]) {
            Ok(b) => bounded(lines, columns, list.update(j, b), k + 1),
            Err(e) => Err(e),
        }
    }
}

/// The Hessian entries at one position of the upper triangle, and mirrored.
#[derive(Clone, Copy, Debug, PartialEq, Eq, Structural)]
pub struct Mirror {
    pub i: usize,
    pub j: usize,
    pub upper: Option<Real>,
    pub lower: Option<Real>,
}

/// The first pair at a position.
pub open spec fn mirror_place(list: Seq<Mirror>, i: usize, j: usize) -> Option<int>
    decreases list.len(),
{
    if list.len() == 0 {
        None
    } else {
        match mirror_place(list.drop_last(), i, j) {
            Some(k) => Some(k),
            None => if list.last().i == i && list.last().j == j {
                Some(list.len() - 1)
            } else {
                None
            },
        }
    }
}

/// All names in bound and quadratic lines are those of columns.
pub open spec fn names_known(source: Source) -> bool {
    let columns = column_names(source.columns@, Seq::empty(), 0);
    &&& forall|k: int|
        0 <= k < source.bounds@.len() ==> names::find(
            columns,
            (#[trigger] source.bounds@[k]).column@,
        ) is Some
    &&& source.quadratic matches Some(terms) ==> forall|k: int|
        0 <= k < terms@.len() ==> names::find(columns, (#[trigger] terms@[k]).first@) is Some
            && names::find(columns, terms@[k].second@) is Some
}

impl<
    P: Fn(Real, Real) -> Real,
    T: Fn(Real, Real) -> Real,
    D: Fn(Real, Real) -> Real,
    H: Fn(Real, Real) -> Real,
> Arithmetic<P, T, D, H> {
    /// The costs and the coefficients, from place `k` on. Rows that are neither
    /// the objective nor known are skipped.
    pub open spec fn entered(
        &self,
        lines: Seq<PairLine>,
        columns: Seq<Seq<char>>,
        rows: Seq<(Seq<char>, RowType)>,
        objective: Seq<char>,
        maximise: bool,
        e: Entered,
        k: int,
    ) -> Entered
        decreases lines.len() - k,
    {
        if k >= lines.len() {
            e
        } else {
            let j = column_at(columns, lines[k].name@);
            self.entered(
                lines,
                columns,
                rows,
                objective,
                maximise,
                if lines[k].row@ == objective {
                    Entered {
                        c: e.c.update(j, self.sum(e.c[j], signed(maximise, lines[k].value))),
                        ..e
                    }
                } else {
                    match row_place(rows, lines[k].row@) {
                        Some(i) => Entered {
                            rows: e.rows.push(i as usize),
                            columns: e.columns.push(j as usize),
                            values: e.values.push(lines[k].value),
                            ..e
                        },
                        None => e,
                    }
                },
                k + 1,
            )
        }
    }

    /// A row's interval with a range.
    pub open spec fn ranged(&self, kind: RowType, rhs: Real, b: Bounds, value: Real) -> Bounds {
        match kind {
            RowType::Leq => Bounds { lower: self.difference(rhs, value.absolute()), ..b },
            RowType::Geq => Bounds { upper: self.sum(rhs, value.absolute()), ..b },
            RowType::Eq => Bounds {
                lower: self.sum(rhs, value.smaller(zero())),
                upper: self.sum(rhs, value.larger(zero())),
            },
            RowType::Nr => b,
        }
    }

    /// The rows' intervals after the ranges of the first set, from place `k` on.
    pub open spec fn rows_ranged(
        &self,
        lines: Seq<PairLine>,
        rows: Seq<(Seq<char>, RowType)>,
        rhs: Seq<Real>,
        list: Seq<Bounds>,
        k: int,
    ) -> Seq<Bounds>
        decreases lines.len() - k,
    {
        if k >= lines.len() {
            list
        } else {
            self.rows_ranged(
                lines,
                rows,
                rhs,
                match row_place(rows, lines[k].row@) {
                    Some(i) if in_first_set(lines, k) => list.update(
                        i,
                        self.ranged(rows[i].1, rhs[i], list[i], lines[k].value),
                    ),
                    _ => list,
                },
                k + 1,
            )
        }
    }

    /// The quadratic terms gathered by position, from place `k` on.
    pub open spec fn mirrored(
        &self,
        terms: Seq<TermLine>,
        columns: Seq<Seq<char>>,
        maximise: bool,
        list: Seq<Mirror>,
        k: int,
    ) -> Seq<Mirror>
        decreases terms.len() - k,
    {
        if k >= terms.len() {
            list
        } else {
            let i = column_at(columns, terms[k].first@) as usize;
            let j = column_at(columns, terms[k].second@) as usize;
            let (low, high) = if i <= j {
                (i, j)
            } else {
                (j, i)
            };
            let v = signed(maximise, terms[k].coefficient);
            self.mirrored(
                terms,
                columns,
                maximise,
                match mirror_place(list, low, high) {
                    Some(at) => list.update(at, self.mirror_joined(list[at], i > j, v)),
                    None => list.push(
                        self.mirror_joined(
                            Mirror { i: low, j: high, upper: None, lower: None },
                            i > j,
                            v,
                        ),
                    ),
                },
                k + 1,
            )
        }
    }

    /// One more term at a position.
    pub open spec fn mirror_joined(&self, m: Mirror, below: bool, v: Real) -> Mirror {
        if below {
            Mirror {
                lower: Some(
                    self.sum(
                        match m.lower {
                            Some(w) => w,
                            None => zero(),
                        },
                        v,
                    ),
                ),
                ..m
            }
        } else {
            Mirror {
                upper: Some(
                    self.sum(
                        match m.upper {
                            Some(w) => w,
                            None => zero(),
                        },
                        v,
                    ),
                ),
                ..m
            }
        }
    }

    /// The value at a position. Mirrored entries stand for the same coefficient
    /// and must agree.
    pub open spec fn mirror_value(&self, m: Mirror) -> Option<Real> {
        match (m.upper, m.lower) {
            (Some(a), Some(b)) => if self.product(
                Real { bits: SMALL_SHARE },
                self.sum(one(), a.absolute().larger(b.absolute())),
            ).lt(self.difference(a, b).absolute()) {
                None
            } else {
                Some(
                    self.sum(
                        self.product(Real { bits: HALF }, a),
                        self.product(Real { bits: HALF }, b),
                    ),
                )
            },
            (Some(a), None) => Some(a),
            (None, Some(b)) => Some(b),
            (None, None) => Some(zero()),
        }
    }

    fn value_mirrored(&self, m: Mirror) -> (v: Option<Real>)
        requires
            self.wf(),
        ensures
            v == self.mirror_value(m),
    {
        match m.upper {
            Some(a) => match m.lower {
                Some(b) => {
                    let scale = self.sum_of(one(), a.abs().max(b.abs()));
                    if self.product_of(Real::from_bits(SMALL_SHARE), scale).less(
                        self.difference_of(a, b).abs(),
                    ) {
                        None
                    } else {
                        let half = Real::from_bits(HALF);
                        Some(self.sum_of(self.product_of(half, a), self.product_of(half, b)))
                    }
                },
                None => Some(a),
            },
            None => match m.lower {
                Some(b) => Some(b),
                None => Some(zero()),
            },
        }
    }

    fn join_mirror(&self, m: Mirror, below: bool, v: Real) -> (r: Mirror)
        requires
            self.wf(),
        ensures
            r == self.mirror_joined(m, below, v),
    {
        if below {
            let held = match m.lower {
                Some(w) => w,
                None => zero(),
            };
            Mirror { i: m.i, j: m.j, upper: m.upper, lower: Some(self.sum_of(held, v)) }
        } else {
            let held = match m.upper {
                Some(w) => w,
                None => zero(),
            };
            Mirror { i: m.i, j: m.j, upper: Some(self.sum_of(held, v)), lower: m.lower }
        }
    }

    /// The values of all pairs, from place `k` on; nothing where two disagree.
    pub open spec fn mirror_values(&self, list: Seq<Mirror>, out: Seq<Real>, k: int) -> Option<
        Seq<Real>,
    >
        decreases list.len() - k,
    {
        if k >= list.len() {
            Some(out)
        } else {
            match self.mirror_value(list[k]) {
                Some(v) => self.mirror_values(list, out.push(v), k + 1),
                None => None,
            }
        }
    }
}

fn list_columns(lines: &Vec<PairLine>) -> (columns: Names)
    ensures
        columns.wf(),
        columns@ == column_names(lines@, Seq::empty(), 0),
        forall|k: int|
            0 <= k < lines@.len() ==> names::find(columns@, (#[trigger] lines@[k]).name@) is Some,
{
    let mut columns = Names::new();
    let mut k: usize = 0;
    while k < lines.len()
        invariant
            k <= lines@.len(),
            columns.wf(),
            column_names(lines@, Seq::empty(), 0) == column_names(lines@, columns@, k as int),
            forall|i: int|
                0 <= i < k ==> names::find(columns@, (#[trigger] lines@[i]).name@) is Some,
        decreases lines@.len() - k,
    {
        let ghost before = columns@;
        let found = columns.get(&lines[k].name);
        if found.is_none() {
            columns.push(text::copy(&lines[k].name));
        }
        proof {
            assert forall|i: int| 0 <= i < k + 1 implies names::find(
                columns@,
                (#[trigger] lines@[i]).name@,
            ) is Some by {
                let x = lines@[i].name@;
                if i < k {
                    assert(names::find(before, x) is Some);
                    let at = choose|at: int| 0 <= at < before.len() && #[trigger] before[at] == x;
                    assert(columns@[at] == x);
                } else if found is None {
                    assert(columns@[before.len() as int] == x);
                }
            }
        }
        k = k + 1;
    }
    columns
}

fn list_rows(lines: &Vec<RowLine>) -> (r: (RowIndex, Vec<RowType>, Ghost<
    Seq<(Seq<char>, RowType)>,
>))
    ensures
        r.2@ == demands(lines@, Seq::empty(), 0),
        r.0.finds(r.2@),
        r.1@.len() == r.2@.len(),
        forall|i: int| 0 <= i < r.1@.len() ==> #[trigger] r.1@[i] == r.2@[i].1,
{
    let mut index = RowIndex::new();
    let mut kinds: Vec<RowType> = Vec::new();
    let ghost mut rows: Seq<(Seq<char>, RowType)> = Seq::empty();
    let mut k: usize = 0;
    while k < lines.len()
        invariant
            k <= lines@.len(),
            index.finds(rows),
            kinds@.len() == rows.len(),
            forall|i: int| 0 <= i < kinds@.len() ==> #[trigger] kinds@[i] == rows[i].1,
            demands(lines@, Seq::empty(), 0) == demands(lines@, rows, k as int),
        decreases lines@.len() - k,
    {
        let kind = lines[k].kind;
        if kind != RowType::Nr {
            let at: usize = kinds.len();
            index.put(&lines[k].name, Ghost(rows), Ghost(kind), at);
            kinds.push(kind);
            proof {
                rows = rows.push((lines@[k as int].name@, kind));
            }
        }
        k = k + 1;
    }
    (index, kinds, Ghost(rows))
}

fn find_objective(source: &Source) -> (r: Option<Vec<char>>)
    ensures
        match r {
            Some(name) => objective_row(*source) == Some(name@),
            None => objective_row(*source) is None,
        },
{
    match &source.objective_name {
        Some(name) => {
            return Some(text::copy(name));
        },
        None => {},
    }
    let mut k: usize = 0;
    while k < source.rows.len()
        invariant
            k <= source.rows@.len(),
            source.objective_name is None,
            first_free_row(source.rows@, 0) == first_free_row(source.rows@, k as int),
        decreases source.rows@.len() - k,
    {
        if source.rows[k].kind == RowType::Nr {
            return Some(text::copy(&source.rows[k].name));
        }
        k = k + 1;
    }
    None
}

pub open spec fn hessian_or_fault(matrix: Result<CscMatrix, MatrixError>) -> Result<
    Option<CscMatrix>,
    SourceError,
> {
    match matrix {
        Ok(p) => Ok(Some(p)),
        Err(e) => Err(SourceError::Matrix(e)),
    }
}

pub open spec fn mirror_rows(list: Seq<Mirror>) -> Seq<usize> {
    Seq::new(list.len(), |k: int| list[k].i)
}

pub open spec fn mirror_columns(list: Seq<Mirror>) -> Seq<usize> {
    Seq::new(list.len(), |k: int| list[k].j)
}

/// Positions occur once.
spec fn distinct(list: Seq<Mirror>) -> bool {
    forall|a: int, b: int|
        0 <= a < b < list.len() ==> (#[trigger] list[a]).i != (#[trigger] list[b]).i || list[a].j
            != list[b].j
}

proof fn mirror_found(list: Seq<Mirror>, at: int)
    requires
        distinct(list),
        0 <= at < list.len(),
    ensures
        mirror_place(list, list[at].i, list[at].j) == Some(at),
    decreases list.len(),
{
    let less = list.drop_last();
    if at < less.len() {
        assert(distinct(less));
        mirror_found(less, at);
    } else {
        mirror_absent(less, list[at].i, list[at].j);
    }
}

proof fn mirror_absent(list: Seq<Mirror>, i: usize, j: usize)
    requires
        forall|k: int| 0 <= k < list.len() ==> (#[trigger] list[k]).i != i || list[k].j != j,
    ensures
        mirror_place(list, i, j) is None,
    decreases list.len(),
{
    if list.len() > 0 {
        let less = list.drop_last();
        assert forall|k: int| 0 <= k < less.len() implies (#[trigger] less[k]).i != i || less[k].j
            != j by {
            assert(list[k].i != i || list[k].j != j);
        }
        assert(list[list.len() - 1].i != i || list[list.len() - 1].j != j);
        mirror_absent(less, i, j);
    }
}

/// For every column, the places of the pairs in it.
spec fn places_by_column(lists: Seq<Vec<usize>>, list: Seq<Mirror>) -> bool {
    &&& forall|k: int|
        0 <= k < list.len() ==> (#[trigger] list[k]).j < lists.len() && lists[list[k].j as int]@.contains(
            k as usize,
        )
    &&& forall|c: int, t: int|
        0 <= c < lists.len() && 0 <= t < lists[c]@.len() ==> #[trigger] lists[c]@[t] < list.len()
}

fn find_mirror(lists: &Vec<Vec<usize>>, list: &Vec<Mirror>, i: usize, j: usize) -> (at: Option<
    usize,
>)
    requires
        distinct(list@),
        places_by_column(lists@, list@),
        j < lists@.len(),
    ensures
        match at {
            Some(k) => k < list@.len() && mirror_place(list@, i, j) == Some(k as int)
                && list@[k as int].i == i && list@[k as int].j == j,
            None => mirror_place(list@, i, j) is None && forall|k: int|
                0 <= k < list@.len() ==> (#[trigger] list@[k]).i != i || list@[k].j != j,
        },
{
    let places = &lists[j];
    let mut t: usize = 0;
    while t < places.len()
        invariant
            t <= places@.len(),
            distinct(list@),
            places_by_column(lists@, list@),
            j < lists@.len(),
            places@ == lists@[j as int]@,
            forall|s: int|
                0 <= s < t ==> list@[#[trigger] places@[s] as int].i != i
                    || list@[places@[s] as int].j != j,
        decreases places@.len() - t,
    {
        let k: usize = places[t];
        assert(lists@[j as int]@[t as int] < list@.len());
        if list[k].i == i && list[k].j == j {
            proof {
                mirror_found(list@, k as int);
            }
            return Some(k);
        }
        t = t + 1;
    }
    proof {
        assert(list.len() == list@.len());
        assert forall|k: int| 0 <= k < list@.len() implies (#[trigger] list@[k]).i != i
            || list@[k].j != j by {
            if list@[k].j == j {
                assert(places@.contains(k as usize));
                let s = choose|s: int| 0 <= s < places@.len() && places@[s] == k as usize;
                assert(list@[places@[s] as int].i != i || list@[places@[s] as int].j != j);
            }
        }
        mirror_absent(list@, i, j);
    }
    None
}

impl<
    P: Fn(Real, Real) -> Real,
    T: Fn(Real, Real) -> Real,
    D: Fn(Real, Real) -> Real,
    H: Fn(Real, Real) -> Real,
> Arithmetic<P, T, D, H> {
    fn gather_mirrors(&self, terms: &Vec<TermLine>, columns: &Names, maximise: bool) -> (list: Vec<
        Mirror,
    >)
        requires
            self.wf(),
            columns.wf(),
            forall|k: int|
                0 <= k < terms@.len() ==> names::find(
                    columns@,
                    (#[trigger] terms@[k]).first@,
                ) is Some && names::find(columns@, terms@[k].second@) is Some,
        ensures
            list@ == self.mirrored(terms@, columns@, maximise, Seq::empty(), 0),
            forall|k: int|
                0 <= k < list@.len() ==> (#[trigger] list@[k]).i < columns@.len() && list@[k].j
                    < columns@.len(),
    {
        let n: usize = columns.len();
        let mut lists: Vec<Vec<usize>> = Vec::new();
        let mut c: usize = 0;
        while c < n
            invariant
                c <= n,
                lists@.len() == c,
                forall|i: int| 0 <= i < c ==> (#[trigger] lists@[i])@ =~= Seq::<usize>::empty(),
            decreases n - c,
        {
            lists.push(Vec::new());
            c = c + 1;
        }
        let mut list: Vec<Mirror> = Vec::new();
        assert(list@ =~= Seq::<Mirror>::empty());
        let mut k: usize = 0;
        while k < terms.len()
            invariant
                k <= terms@.len(),
                self.wf(),
                columns.wf(),
                n == columns@.len() == lists@.len(),
                forall|k: int|
                    0 <= k < terms@.len() ==> names::find(
                        columns@,
                        (#[trigger] terms@[k]).first@,
                    ) is Some && names::find(columns@, terms@[k].second@) is Some,
                distinct(list@),
                places_by_column(lists@, list@),
                forall|k: int|
                    0 <= k < list@.len() ==> (#[trigger] list@[k]).i < n && list@[k].j < n,
                self.mirrored(terms@, columns@, maximise, Seq::empty(), 0) == self.mirrored(
                    terms@,
                    columns@,
                    maximise,
                    list@,
                    k as int,
                ),
            decreases terms@.len() - k,
        {
            let term = &terms[k];
            assert(names::find(columns@, terms@[k as int].first@) is Some);
            let i: usize = match columns.get(&term.first) {
                Some(i) => i,
                None => 0,
            };
            let j: usize = match columns.get(&term.second) {
                Some(j) => j,
                None => 0,
            };
            let (low, high): (usize, usize) = if i <= j {
                (i, j)
            } else {
                (j, i)
            };
            let v = sign(maximise, term.coefficient);
            let ghost (before, kept) = (list@, lists@);
            match find_mirror(&lists, &list, low, high) {
                Some(at) => {
                    let joined = self.join_mirror(list[at], i > j, v);
                    list.set(at, joined);
                    proof {
                        assert forall|a: int, b: int| 0 <= a < b < list@.len() implies (
                        #[trigger] list@[a]).i != (#[trigger] list@[b]).i || list@[a].j
                            != list@[b].j by {
                            assert(before[a].i != before[b].i || before[a].j != before[b].j);
                        }
                        assert forall|p: int| 0 <= p < list@.len() implies (#[trigger] list@[p]).j
                            < lists@.len() && lists@[list@[p].j as int]@.contains(p as usize) by {
                            assert(before[p].j == list@[p].j);
                        }
                    }
                },
                None => {
                    let at: usize = list.len();
                    let joined = self.join_mirror(
                        Mirror { i: low, j: high, upper: None, lower: None },
                        i > j,
                        v,
                    );
                    list.push(joined);
                    let mut places: Vec<usize> = Vec::new();
                    std::mem::swap(&mut places, &mut lists[high]);
                    let ghost mine = places@;
                    places.push(at);
                    lists.set(high, places);
                    proof {
                        assert(kept[high as int]@ == mine);
                        assert forall|p: int| 0 <= p < list@.len() implies (#[trigger] list@[p]).j
                            < lists@.len() && lists@[list@[p].j as int]@.contains(p as usize) by {
                            if p < before.len() {
                                let c = before[p].j as int;
                                assert(list@[p] == before[p]);
                                assert(kept[c]@.contains(p as usize));
                                let t = choose|t: int|
                                    0 <= t < kept[c]@.len() && kept[c]@[t] == p as usize;
                                assert(lists@[c]@[t] == p as usize);
                            } else {
                                assert(lists@[high as int]@[mine.len() as int] == at);
                            }
                        }
                        assert forall|c: int, t: int|
                            0 <= c < lists@.len() && 0 <= t
                                < lists@[c]@.len() implies #[trigger] lists@[c]@[t]
                            < list@.len() by {
                            if c != high || t < mine.len() {
                                assert(kept[c]@[t] < before.len());
                            }
                        }
                    }
                },
            }
            k = k + 1;
        }
        list
    }

    fn enter(
        &self,
        lines: &Vec<PairLine>,
        columns: &Names,
        index: &RowIndex,
        objective: &Vec<char>,
        maximise: bool,
        Ghost(rows): Ghost<Seq<(Seq<char>, RowType)>>,
    ) -> (r: (Vec<Real>, Vec<usize>, Vec<usize>, Vec<Real>))
        requires
            self.wf(),
            columns.wf(),
            index.finds(rows),
            forall|k: int|
                0 <= k < lines@.len() ==> names::find(
                    columns@,
                    (#[trigger] lines@[k]).name@,
                ) is Some,
        ensures
            (Entered { c: r.0@, rows: r.1@, columns: r.2@, values: r.3@ }) == self.entered(
                lines@,
                columns@,
                rows,
                objective@,
                maximise,
                no_entries(columns@.len()),
                0,
            ),
    {
        let mut c: Vec<Real> = vec![zero(); columns.len()];
        let mut ai: Vec<usize> = Vec::new();
        let mut aj: Vec<usize> = Vec::new();
        let mut av: Vec<Real> = Vec::new();
        let ghost start = no_entries(columns@.len());
        proof {
            assert(c@ =~= start.c && ai@ =~= start.rows && aj@ =~= start.columns && av@
                =~= start.values);
        }
        let mut k: usize = 0;
        while k < lines.len()
            invariant
                k <= lines@.len(),
                self.wf(),
                columns.wf(),
                index.finds(rows),
                c@.len() == columns@.len(),
                forall|k: int|
                    0 <= k < lines@.len() ==> names::find(
                        columns@,
                        (#[trigger] lines@[k]).name@,
                    ) is Some,
                self.entered(lines@, columns@, rows, objective@, maximise, start, 0)
                    == self.entered(
                    lines@,
                    columns@,
                    rows,
                    objective@,
                    maximise,
                    (Entered { c: c@, rows: ai@, columns: aj@, values: av@ }),
                    k as int,
                ),
            decreases lines@.len() - k,
        {
            let line = &lines[k];
            assert(names::find(columns@, lines@[k as int].name@) is Some);
            let j: usize = match columns.get(&line.name) {
                Some(j) => j,
                None => 0,
            };
            if text::same(&line.row, objective) {
                c.set(j, self.sum_of(c[j], sign(maximise, line.value)));
            } else {
                match index.get(&line.row, Ghost(rows)) {
                    Some(i) => {
                        ai.push(i);
                        aj.push(j);
                        av.push(line.value);
                    },
                    None => {},
                }
            }
            k = k + 1;
        }
        (c, ai, aj, av)
    }

    fn read_sides(
        &self,
        source: &Source,
        kinds: &Vec<RowType>,
        index: &RowIndex,
        objective: &Vec<char>,
        Ghost(rows): Ghost<Seq<(Seq<char>, RowType)>>,
    ) -> (r: (Vec<Bounds>, Real))
        requires
            self.wf(),
            index.finds(rows),
            kinds@.len() == rows.len(),
            forall|i: int| 0 <= i < kinds@.len() ==> #[trigger] kinds@[i] == rows[i].1,
        ensures
            ({
                let s = sided(
                    source.rhs@,
                    rows,
                    objective@,
                    source.maximise,
                    Sided { rhs: Seq::new(rows.len(), |i: int| zero()), constant: zero() },
                    0,
                );
                &&& r.1 == s.constant
                &&& r.0@ == self.rows_ranged(
                    source.ranges@,
                    rows,
                    s.rhs,
                    Seq::new(rows.len(), |i: int| demanded(rows[i].1, s.rhs[i])),
                    0,
                )
            }),
    {
        let m: usize = kinds.len();
        let mut rhs: Vec<Real> = vec![zero(); m];
        let mut constant = zero();
        let ghost start = Sided {
            rhs: Seq::new(rows.len(), |i: int| zero()),
            constant: zero(),
        };
        assert(rhs@ =~= start.rhs);
        let mut k: usize = 0;
        while k < source.rhs.len()
            invariant
                k <= source.rhs@.len(),
                index.finds(rows),
                rhs@.len() == rows.len(),
                sided(source.rhs@, rows, objective@, source.maximise, start, 0) == sided(
                    source.rhs@,
                    rows,
                    objective@,
                    source.maximise,
                    (Sided { rhs: rhs@, constant }),
                    k as int,
                ),
            decreases source.rhs@.len() - k,
        {
            let line = &source.rhs[k];
            if text::same(&line.name, &source.rhs[0].name) {
                if text::same(&line.row, objective) {
                    constant = sign(source.maximise, line.value).neg();
                } else {
                    match index.get(&line.row, Ghost(rows)) {
                        Some(i) => {
                            rhs.set(i, line.value);
                        },
                        None => {},
                    }
                }
            }
            k = k + 1;
        }
        let ghost s = sided(source.rhs@, rows, objective@, source.maximise, start, 0);
        let ghost plain = Seq::new(rows.len(), |i: int| demanded(rows[i].1, s.rhs[i]));
        let mut list: Vec<Bounds> = Vec::new();
        let mut i: usize = 0;
        while i < m
            invariant
                i <= m == kinds@.len() == rows.len() == rhs@.len(),
                rhs@ == s.rhs,
                forall|i: int| 0 <= i < kinds@.len() ==> #[trigger] kinds@[i] == rows[i].1,
                plain == Seq::new(rows.len(), |i: int| demanded(rows[i].1, s.rhs[i])),
                list@ == plain.take(i as int),
            decreases m - i,
        {
            list.push(demand(kinds[i], rhs[i]));
            i = i + 1;
            assert(list@ =~= plain.take(i as int));
        }
        assert(list@ =~= plain);
        let mut k: usize = 0;
        while k < source.ranges.len()
            invariant
                k <= source.ranges@.len(),
                self.wf(),
                index.finds(rows),
                kinds@.len() == rows.len() == rhs@.len() == list@.len(),
                rhs@ == s.rhs,
                forall|i: int| 0 <= i < kinds@.len() ==> #[trigger] kinds@[i] == rows[i].1,
                self.rows_ranged(source.ranges@, rows, s.rhs, plain, 0) == self.rows_ranged(
                    source.ranges@,
                    rows,
                    s.rhs,
                    list@,
                    k as int,
                ),
            decreases source.ranges@.len() - k,
        {
            let line = &source.ranges[k];
            if text::same(&line.name, &source.ranges[0].name) {
                match index.get(&line.row, Ghost(rows)) {
                    Some(i) => {
                        let (b, v): (Bounds, Real) = (list[i], line.value);
                        assert(kinds@[i as int] == rows[i as int].1);
                        let ranged = match kinds[i] {
                            RowType::Leq => Bounds {
                                lower: self.difference_of(rhs[i], v.abs()),
                                upper: b.upper,
                            },
                            RowType::Geq => Bounds {
                                lower: b.lower,
                                upper: self.sum_of(rhs[i], v.abs()),
                            },
                            RowType::Eq => Bounds {
                                lower: self.sum_of(rhs[i], v.min(zero())),
                                upper: self.sum_of(rhs[i], v.max(zero())),
                            },
                            RowType::Nr => b,
                        };
                        list.set(i, ranged);
                    },
                    None => {},
                }
            }
            k = k + 1;
        }
        (list, constant)
    }

    /// The Hessian of the quadratic section.
    pub open spec fn hessian_built(
        &self,
        built: Result<Option<CscMatrix>, SourceError>,
        matrix: Result<CscMatrix, MatrixError>,
        source: Source,
        columns: Seq<Seq<char>>,
    ) -> bool {
        match source.quadratic {
            None => built == Ok::<Option<CscMatrix>, SourceError>(None),
            Some(terms) => {
                let list = self.mirrored(terms@, columns, source.maximise, Seq::empty(), 0);
                match self.mirror_values(list, Seq::empty(), 0) {
                    None => built == Err::<Option<CscMatrix>, SourceError>(SourceError::Asymmetric),
                    Some(values) => self.packs(matrix, list, values, columns.len() as usize)
                        && built == hessian_or_fault(matrix),
                }
            },
        }
    }

    /// The matrix of the gathered terms.
    pub open spec fn packs(
        &self,
        matrix: Result<CscMatrix, MatrixError>,
        list: Seq<Mirror>,
        values: Seq<Real>,
        n: usize,
    ) -> bool {
        summation::built_from(
            matrix,
            n,
            n,
            mirror_rows(list),
            mirror_columns(list),
            values,
            self.plus,
        )
    }

    fn build_hessian(&self, source: &Source, columns: &Names) -> (built: Result<
        Option<CscMatrix>,
        SourceError,
    >)
        requires
            self.wf(),
            columns.wf(),
            columns@ == column_names(source.columns@, Seq::empty(), 0),
            names_known(*source),
        ensures
            exists|matrix: Result<CscMatrix, MatrixError>| #[trigger]
                self.hessian_built(built, matrix, *source, columns@),
    {
        let ghost unused: Result<CscMatrix, MatrixError> = Err(MatrixError::NonFiniteValue);
        match &source.quadratic {
            None => {
                let built: Result<Option<CscMatrix>, SourceError> = Ok(None);
                assert(self.hessian_built(built, unused, *source, columns@));
                built
            },
            Some(terms) => {
                let list = self.gather_mirrors(terms, columns, source.maximise);
                let mut pi: Vec<usize> = Vec::new();
                let mut pj: Vec<usize> = Vec::new();
                let mut pv: Vec<Real> = Vec::new();
                assert(pv@ =~= Seq::<Real>::empty());
                let mut k: usize = 0;
                while k < list.len()
                    invariant
                        k <= list@.len(),
                        self.wf(),
                        pi@.len() == pj@.len() == pv@.len() == k,
                        forall|a: int| 0 <= a < k ==> #[trigger] pi@[a] == list@[a].i,
                        forall|a: int| 0 <= a < k ==> #[trigger] pj@[a] == list@[a].j,
                        source.quadratic == Some(*terms),
                        list@ == self.mirrored(
                            terms@,
                            columns@,
                            source.maximise,
                            Seq::empty(),
                            0,
                        ),
                        self.mirror_values(list@, Seq::empty(), 0) == self.mirror_values(
                            list@,
                            pv@,
                            k as int,
                        ),
                    decreases list@.len() - k,
                {
                    match self.value_mirrored(list[k]) {
                        Some(v) => {
                            pi.push(list[k].i);
                            pj.push(list[k].j);
                            pv.push(v);
                        },
                        None => {
                            let built: Result<Option<CscMatrix>, SourceError> = Err(
                                SourceError::Asymmetric,
                            );
                            assert(self.hessian_built(built, unused, *source, columns@));
                            return built;
                        },
                    }
                    k = k + 1;
                }
                let n: usize = columns.len();
                let matrix = CscMatrix::from_triplets(n, n, &pi, &pj, &pv, &self.plus);
                proof {
                    assert(pi@ =~= mirror_rows(list@));
                    assert(pj@ =~= mirror_columns(list@));
                }
                let ghost packed = matrix;
                assert(self.packs(packed, list@, pv@, columns@.len() as usize));
                let built: Result<Option<CscMatrix>, SourceError> = match matrix {
                    Ok(p) => Ok(Some(p)),
                    Err(e) => Err(SourceError::Matrix(e)),
                };
                assert(built == hessian_or_fault(packed));
                assert(self.mirror_values(list@, Seq::empty(), 0) == Some(pv@));
                assert(self.hessian_built(built, packed, *source, columns@));
                built
            },
        }
    }

    /// The problem of the sections, given what the matrices came to.
    pub open spec fn assembled(
        &self,
        source: Source,
        hessian: (Result<Option<CscMatrix>, SourceError>, Result<CscMatrix, MatrixError>),
        matrix: Result<CscMatrix, MatrixError>,
        result: Result<Problem, SourceError>,
    ) -> bool {
        let columns = column_names(source.columns@, Seq::empty(), 0);
        let rows = demands(source.rows@, Seq::empty(), 0);
        match objective_row(source) {
            None => result == Err::<Problem, SourceError>(SourceError::MissingObjective),
            Some(objective) => {
                let e = self.entered(
                    source.columns@,
                    columns,
                    rows,
                    objective,
                    source.maximise,
                    no_entries(columns.len()),
                    0,
                );
                let s = sided(
                    source.rhs@,
                    rows,
                    objective,
                    source.maximise,
                    Sided { rhs: Seq::new(rows.len(), |i: int| zero()), constant: zero() },
                    0,
                );
                let sides = self.rows_ranged(
                    source.ranges@,
                    rows,
                    s.rhs,
                    Seq::new(rows.len(), |i: int| demanded(rows[i].1, s.rhs[i])),
                    0,
                );
                match bounded(source.bounds@, columns, nonnegative(columns.len()), 0) {
                    Err(fault) => result == Err::<Problem, SourceError>(fault),
                    Ok(bounds) => {
                        &&& self.hessian_built(hessian.0, hessian.1, source, columns)
                        &&& match hessian.0 {
                            Err(fault) => result == Err::<Problem, SourceError>(fault),
                            Ok(p) => {
                                &&& summation::built_from(
                                    matrix,
                                    rows.len() as usize,
                                    columns.len() as usize,
                                    e.rows,
                                    e.columns,
                                    e.values,
                                    self.plus,
                                )
                                &&& match (matrix, result) {
                                    (Err(fault), _) => result == Err::<Problem, SourceError>(
                                        SourceError::Matrix(fault),
                                    ),
                                    (Ok(a), Ok(problem)) => {
                                        &&& problem.p == p
                                        &&& problem.a == a
                                        &&& problem.c@ == e.c
                                        &&& problem.c0 == s.constant
                                        &&& problem.rows@ == Seq::new(
                                            rows.len(),
                                            |i: int| Constraint::Linear(sides[i]),
                                        )
                                        &&& problem.variable_bounds@ == bounds
                                        &&& problem.cones@.len() == 0
                                    },
                                    (Ok(_), Err(_)) => false,
                                }
                            },
                        }
                    },
                }
            },
        }
    }

    /// Make a problem of the sections of a file. The first named set of each of
    /// the sections for right-hand sides, ranges and bounds is used.
    pub fn assemble(&self, source: &Source) -> (result: Result<Problem, SourceError>)
        requires
            self.wf(),
            names_known(*source),
        ensures
            exists|
                hessian: (
                    Result<Option<CscMatrix>, SourceError>,
                    Result<CscMatrix, MatrixError>,
                ),
                matrix: Result<CscMatrix, MatrixError>,
            | #[trigger]
                self.assembled(*source, hessian, matrix, result),
    {
        let ghost no_matrix: Result<CscMatrix, MatrixError> = Err(MatrixError::NonFiniteValue);
        let ghost no_hessian: (
            Result<Option<CscMatrix>, SourceError>,
            Result<CscMatrix, MatrixError>,
        ) = (Ok(None), no_matrix);
        let objective = match find_objective(source) {
            Some(name) => name,
            None => {
                let result: Result<Problem, SourceError> = Err(SourceError::MissingObjective);
                assert(self.assembled(*source, no_hessian, no_matrix, result));
                return result;
            },
        };
        let (index, kinds, Ghost(rows)): (RowIndex, Vec<RowType>, Ghost<
            Seq<(Seq<char>, RowType)>,
        >) = list_rows(&source.rows);
        let columns = list_columns(&source.columns);
        let n: usize = columns.len();
        let m: usize = kinds.len();
        let (c, ai, aj, av): (Vec<Real>, Vec<usize>, Vec<usize>, Vec<Real>) = self.enter(
            &source.columns,
            &columns,
            &index,
            &objective,
            source.maximise,
            Ghost(rows),
        );
        let (sides, constant): (Vec<Bounds>, Real) = self.read_sides(
            source,
            &kinds,
            &index,
            &objective,
            Ghost(rows),
        );
        let bounds = match read_bounds(&source.bounds, &columns) {
            Ok(bounds) => bounds,
            Err(fault) => {
                let result: Result<Problem, SourceError> = Err(fault);
                assert(self.assembled(*source, no_hessian, no_matrix, result));
                return result;
            },
        };
        let hessian = self.build_hessian(source, &columns);
        let ghost built = (
            hessian,
            choose|matrix: Result<CscMatrix, MatrixError>| #[trigger]
                self.hessian_built(hessian, matrix, *source, columns@),
        );
        let p = match hessian {
            Ok(p) => p,
            Err(fault) => {
                let result: Result<Problem, SourceError> = Err(fault);
                assert(self.assembled(*source, built, no_matrix, result));
                return result;
            },
        };
        let matrix = CscMatrix::from_triplets(m, n, &ai, &aj, &av, &self.plus);
        let ghost packed = matrix;
        let a = match matrix {
            Ok(a) => a,
            Err(fault) => {
                let result: Result<Problem, SourceError> = Err(SourceError::Matrix(fault));
                assert(self.assembled(*source, built, packed, result));
                return result;
            },
        };
        let mut list: Vec<Constraint> = Vec::new();
        let ghost wanted = Seq::new(sides@.len(), |i: int| Constraint::Linear(sides@[i]));
        let mut i: usize = 0;
        while i < sides.len()
            invariant
                i <= sides@.len(),
                wanted == Seq::new(sides@.len(), |i: int| Constraint::Linear(sides@[i])),
                list@ == wanted.take(i as int),
            decreases sides@.len() - i,
        {
            list.push(Constraint::Linear(sides[i]));
            i = i + 1;
            assert(list@ =~= wanted.take(i as int));
        }
        assert(list@ =~= wanted);
        let problem = Problem {
            p,
            c,
            c0: constant,
            a,
            rows: list,
            variable_bounds: bounds,
            cones: Vec::new(),
        };
        let result: Result<Problem, SourceError> = Ok(problem);
        proof {
            self.ranges_keep_length(
                source.ranges@,
                rows,
                sided(
                    source.rhs@,
                    rows,
                    objective@,
                    source.maximise,
                    Sided { rhs: Seq::new(rows.len(), |i: int| zero()), constant: zero() },
                    0,
                ).rhs,
                Seq::new(
                    rows.len(),
                    |i: int|
                        demanded(
                            rows[i].1,
                            sided(
                                source.rhs@,
                                rows,
                                objective@,
                                source.maximise,
                                Sided {
                                    rhs: Seq::new(rows.len(), |i: int| zero()),
                                    constant: zero(),
                                },
                                0,
                            ).rhs[i],
                        ),
                ),
                0,
            );
            assert(problem.rows@ =~= Seq::new(rows.len(), |i: int| Constraint::Linear(sides@[i])));
            assert(self.assembled(*source, built, packed, result));
        }
        result
    }

    proof fn ranges_keep_length(
        &self,
        lines: Seq<PairLine>,
        rows: Seq<(Seq<char>, RowType)>,
        rhs: Seq<Real>,
        list: Seq<Bounds>,
        k: int,
    )
        requires
            0 <= k,
            list.len() == rows.len(),
        ensures
            self.rows_ranged(lines, rows, rhs, list, k).len() == list.len(),
        decreases lines.len() - k,
    {
        if k < lines.len() {
            let next = match row_place(rows, lines[k].row@) {
                Some(i) if in_first_set(lines, k) => list.update(
                    i,
                    self.ranged(rows[i].1, rhs[i], list[i], lines[k].value),
                ),
                _ => list,
            };
            place_is_a_row(rows, lines[k].row@);
            self.ranges_keep_length(lines, rows, rhs, next, k + 1);
        }
    }
}

/// Nothing was read yet.
pub open spec fn no_entries(columns: nat) -> Entered {
    Entered {
        c: Seq::new(columns, |j: int| zero()),
        rows: Seq::empty(),
        columns: Seq::empty(),
        values: Seq::empty(),
    }
}

/// The interval of a variable without bounds.
pub open spec fn nonnegative(columns: nat) -> Seq<Bounds> {
    Seq::new(columns, |j: int| Bounds { lower: zero(), upper: infinity() })
}

fn read_bounds(lines: &Vec<BoundLine>, columns: &Names) -> (r: Result<Vec<Bounds>, SourceError>)
    requires
        columns.wf(),
        forall|k: int|
            0 <= k < lines@.len() ==> names::find(columns@, (#[trigger] lines@[k]).column@) is Some,
    ensures
        match r {
            Ok(list) => bounded(lines@, columns@, nonnegative(columns@.len()), 0) == Ok::<
                Seq<Bounds>,
                SourceError,
            >(list@),
            Err(e) => bounded(lines@, columns@, nonnegative(columns@.len()), 0) == Err::<
                Seq<Bounds>,
                SourceError,
            >(e),
        },
{
    let mut list: Vec<Bounds> = vec![
        Bounds { lower: zero(), upper: infinity() };
        columns.len()
    ];
    let ghost start = nonnegative(columns@.len());
    assert(list@ =~= start);
    let mut k: usize = 0;
    while k < lines.len()
        invariant
            k <= lines@.len(),
            columns.wf(),
            list@.len() == columns@.len(),
            start == nonnegative(columns@.len()),
            forall|k: int|
                0 <= k < lines@.len() ==> names::find(
                    columns@,
                    (#[trigger] lines@[k]).column@,
                ) is Some,
            bounded(lines@, columns@, start, 0) == bounded(lines@, columns@, list@, k as int),
        decreases lines@.len() - k,
    {
        let line = &lines[k];
        if text::same(&line.set, &lines[0].set) {
            assert(names::find(columns@, lines@[k as int].column@) is Some);
            let j: usize = match columns.get(&line.column) {
                Some(j) => j,
                None => 0,
            };
            match set_bound(line, list[j]) {
                Ok(b) => {
                    list.set(j, b);
                },
                Err(e) => {
                    return Err(e);
                },
            }
        }
        k = k + 1;
    }
    Ok(list)
}

} // verus!
