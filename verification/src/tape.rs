//! Reverse applied rules for solutions and certificates. A removed column's
//! objective derivative is evaluated after recovering its primal value,
//! supporting coupled quadratic objectives and sequences of substitutions.

use crate::arithmetic::Arithmetic;
use crate::bounds::{Bounds, Side};
use crate::cone;
use crate::lifting;
use crate::linked::{self, Entries};
use crate::merge;
use crate::number::{one, zero, Real};
use vstd::prelude::*;

verus! {

/// The bit pattern of one hundred-millionth.
pub const ACTIVITY_TOLERANCE: u64 = 0x3e45798ee2308c3a;

/// The bit pattern of one half.
pub const HALF: u64 = 0x3fe0000000000000;

/// The bit pattern of the square root of one half.
pub const ROOT_HALF: u64 = 0x3fe6a09e667f3bcd;

/// What is recovered: a solution, Farkas multipliers, or a recession direction.
#[derive(Clone, Copy, Debug, PartialEq, Eq, Structural)]
pub enum Recovery {
    Solution,
    PrimalInfeasibility,
    DualInfeasibility,
}

impl Recovery {
    pub open spec fn has_point(self) -> bool {
        !(self is PrimalInfeasibility)
    }

    pub open spec fn has_multipliers(self) -> bool {
        !(self is DualInfeasibility)
    }

    pub open spec fn shift(self, value: Real) -> Real {
        if self is Solution {
            value
        } else {
            zero()
        }
    }

    pub open spec fn range(self, bounds: Bounds) -> Bounds {
        if self is Solution {
            bounds
        } else {
            bounds.recessed()
        }
    }

    /// Whether primal values are recovered.
    pub fn primal(self) -> (b: bool)
        ensures
            b == self.has_point(),
    {
        match self {
            Recovery::PrimalInfeasibility => false,
            _ => true,
        }
    }

    /// Whether multipliers are recovered.
    pub fn dual(self) -> (b: bool)
        ensures
            b == self.has_multipliers(),
    {
        match self {
            Recovery::DualInfeasibility => false,
            _ => true,
        }
    }

    pub(crate) fn solution(self) -> (b: bool)
        ensures
            b == (self is Solution),
    {
        match self {
            Recovery::Solution => true,
            _ => false,
        }
    }

    /// Constants do not act on directions.
    pub fn offset(self, value: Real) -> (r: Real)
        ensures
            r == self.shift(value),
    {
        if self.solution() {
            value
        } else {
            zero()
        }
    }

    /// Directions respect the recession cone of the bounds.
    pub fn bounds(self, bounds: Bounds) -> (b: Bounds)
        ensures
            b == self.range(bounds),
    {
        if self.solution() {
            bounds
        } else {
            bounds.recession()
        }
    }
}

impl Side {
    pub open spec fn presses(self, multiplier: Real) -> bool {
        match self {
            Side::Lower => zero().lt(multiplier),
            Side::Upper => multiplier.lt(zero()),
        }
    }

    /// Whether a multiplier belongs to this side.
    pub fn used(self, multiplier: Real) -> (b: bool)
        ensures
            b == self.presses(multiplier),
    {
        match self {
            Side::Lower => zero().less(multiplier),
            Side::Upper => multiplier.less(zero()),
        }
    }
}

/// A row as it stood when a rule used it.
#[derive(Clone, Debug)]
pub struct Equation {
    pub row: usize,
    pub entries: Entries,
    pub bounds: Bounds,
}

/// A partial derivative of the objective.
#[derive(Clone, Debug)]
pub struct Gradient {
    pub constant: Real,
    pub terms: Entries,
}

/// One elimination of a tree: `pivot * column + other * parent = rhs`, with the
/// cost of the column and its coefficients in the other rows.
#[derive(Clone, Debug)]
pub struct DoubletonStep {
    pub column: usize,
    pub parent: usize,
    pub row: usize,
    pub pivot: Real,
    pub other: Real,
    pub rhs: Real,
    pub objective: Real,
    pub entries: Entries,
}

/// An applied rule and the data needed to reverse its changes.
#[derive(Clone, Debug)]
pub enum Rule {
    /// Evaluated at this point of the reverse traversal, before earlier
    /// aggregations and substitutions change the meaning of the coefficients.
    ConeSlack { row: usize, rhs: Real, entries: Entries },
    SocToLinear { head: usize, tail: usize },
    SocFace { head: usize, tail: Vec<usize> },
    PsdZeroFace { rows: Vec<usize>, order: usize },
    /// Target rows were replaced by `a_i - alpha a_ref`, with a bounded activity
    /// variable `t = a_ref x` when the reference is not an equality.
    RowCombination { reference: usize, targets: Entries, activity: Option<(usize, Entries)> },
    Fixed { column: usize, value: Real, gradient: Gradient, entries: Entries },
    /// `retained` means that the equality became the column's bounds.
    Substituted {
        column: usize,
        equation: Equation,
        gradient: Gradient,
        other_rows: Entries,
        retained: bool,
    },
    DependentRow { row: usize, coefficients: Entries },
    /// `A_keep = ratio A_removed`.
    MergedRow { keep: usize, removed: usize, ratio: Real },
    DeletedRow(usize),
    TightenedBound { column: usize, equation: Equation, side: Side, old: Real },
    /// `A_row = ratio A_source`.
    TightenedRow { row: usize, source: usize, ratio: Real, side: Side },
    ParallelColumns {
        keep: usize,
        removed: usize,
        ratio: Real,
        keep_bounds: Bounds,
        removed_bounds: Bounds,
    },
    /// A flat objective permits movement indefinitely in one direction.
    Unlocked { column: usize, bounds: Bounds, rows: Vec<Equation> },
    /// A tree of two-variable equalities, from its root on.
    DoubletonChain { steps: Vec<DoubletonStep> },
    /// `x_column = s + slope x_other + offset`, where `s` takes the column's place
    /// and its bound the place of the row: `pivot s` is what the row has to spare.
    BoundShift {
        column: usize,
        other: usize,
        row: usize,
        pivot: Real,
        slope: Real,
        offset: Real,
    },
    /// Every class of columns moves together, and every class of rows is one row.
    LpFold { columns: Vec<Vec<usize>>, rows: Vec<Vec<usize>> },
    /// A free column without rows: `x_column = offset + slopes x`.
    Eliminated { column: usize, offset: Real, slopes: Entries },
}

/// A point of the working problem with multipliers of its rows and bounds.
#[derive(Clone, Debug)]
pub struct Point {
    pub x: Vec<Real>,
    pub y: Vec<Real>,
    pub z: Vec<Real>,
}

pub open spec fn zeros(n: nat) -> Seq<Real> {
    Seq::new(n, |i: int| zero())
}

/// A vector of zeros.
pub fn zero_vec(n: usize) -> (v: Vec<Real>)
    ensures
        v@ == zeros(n as nat),
{
    let mut v: Vec<Real> = Vec::new();
    let mut i: usize = 0;
    while i < n
        invariant
            i <= n,
            v@ == zeros(i as nat),
        decreases n - i,
    {
        v.push(zero());
        i = i + 1;
        assert(v@ =~= zeros(i as nat));
    }
    v
}

impl Point {
    pub fn zeros(columns: usize, rows: usize) -> (point: Self)
        ensures
            point.x@ == zeros(columns as nat),
            point.y@ == zeros(rows as nat),
            point.z@ == zeros(columns as nat),
    {
        Point { x: zero_vec(columns), y: zero_vec(rows), z: zero_vec(columns) }
    }
}

/// The values that recovery works on: a point, its multipliers and the slacks
/// of cone coordinates.
#[verifier::ext_equal]
pub struct State {
    pub x: Seq<Real>,
    pub y: Seq<Real>,
    pub z: Seq<Real>,
    pub s: Seq<Real>,
}

/// Indices of a list lie below a bound.
pub open spec fn within(entries: Seq<(usize, Real)>, n: nat) -> bool {
    forall|k: int| 0 <= k < entries.len() ==> (#[trigger] entries[k]).0 < n
}

pub open spec fn all_within(list: Seq<usize>, n: nat) -> bool {
    forall|k: int| 0 <= k < list.len() ==> (#[trigger] list[k]) < n
}

impl Equation {
    /// The saved row contains the column, once.
    pub open spec fn stores(&self, column: usize) -> bool {
        merge::increasing(self.entries@) && merge::entry(self.entries@, column) is Some
    }

    pub open spec fn fits(&self, columns: nat, rows: nat) -> bool {
        self.row < rows && within(self.entries@, columns)
    }

    pub open spec fn coefficient_of(&self, column: usize) -> Real {
        merge::value(merge::entry(self.entries@, column))
    }

    /// The coefficient of a column that the saved row contains.
    pub fn coefficient(&self, column: usize) -> (a: Real)
        requires
            self.stores(column),
        ensures
            a == self.coefficient_of(column),
    {
        let mut low: usize = 0;
        let mut high: usize = self.entries.len();
        let ghost list = self.entries@;
        let ghost at = choose|at: int| 0 <= at < list.len() && (#[trigger] list[at]).0 == column;
        while low < high
            invariant
                low <= at < high <= list.len(),
                list == self.entries@,
                merge::increasing(list),
                list[at].0 == column,
            decreases high - low,
        {
            let middle: usize = low + (high - low) / 2;
            let (j, a): (usize, Real) = self.entries[middle];
            if j == column {
                proof {
                    merge::entry_is(list, middle as int);
                }
                return a;
            }
            proof {
                if middle < at {
                    assert(list[middle as int].0 < list[at].0);
                } else {
                    assert(list[at].0 < list[middle as int].0);
                }
            }
            if j < column {
                low = middle + 1;
            } else {
                high = middle;
            }
        }
        zero()
    }
}

/// A row as a matrix stores it, with a column of the row, is one that a tape may keep.
pub proof fn line_fits(
    equation: Equation,
    matrix: Map<(int, int), Real>,
    column: usize,
    columns: nat,
    rows: nat,
)
    requires
        equation.row < rows,
        linked::lists_line(equation.entries@, matrix, false, equation.row as int),
        forall|i: int, j: int| #[trigger] matrix.contains_key((i, j)) ==> 0 <= j < columns,
    ensures
        equation.fits(columns, rows),
        matrix.contains_key((equation.row as int, column as int)) ==> equation.stores(column),
{
    let entries = equation.entries@;
    assert forall|k: int| 0 <= k < entries.len() implies (#[trigger] entries[k]).0 < columns by {
        assert(matrix.contains_key(linked::place(false, equation.row as int, entries[k].0 as int)));
        assert(matrix.contains_key((equation.row as int, entries[k].0 as int)));
    }
    if matrix.contains_key((equation.row as int, column as int)) {
        assert(matrix.contains_key(linked::place(false, equation.row as int, column as int)));
    }
}

/// Every rule of a tape speaks of columns, rows and slacks that exist.
pub open spec fn rules_fit(tape: Seq<Rule>, columns: nat, rows: nat) -> bool {
    forall|k: int| 0 <= k < tape.len() ==> rule_fits(#[trigger] tape[k], columns, rows)
}

/// The rule speaks of columns, rows and slacks that exist.
pub open spec fn rule_fits(rule: Rule, columns: nat, rows: nat) -> bool {
    match rule {
        Rule::ConeSlack { row, entries, .. } => row < rows && within(entries@, columns),
        Rule::SocToLinear { head, tail } => head < rows && tail < rows,
        Rule::SocFace { head, tail } => head < rows && all_within(tail@, rows),
        Rule::PsdZeroFace { rows: list, order } => list@.len() == cone::triangle(order as int)
            && all_within(list@, rows),
        Rule::RowCombination { reference, targets, activity } => {
            &&& reference < rows
            &&& within(targets@, rows)
            &&& activity matches Some((j, terms)) ==> j < columns && within(terms@, columns)
        },
        Rule::Fixed { column, gradient, entries, .. } => column < columns && within(
            gradient.terms@,
            columns,
        ) && within(entries@, rows),
        Rule::Substituted { column, equation, gradient, other_rows, .. } => {
            &&& column < columns
            &&& equation.fits(columns, rows)
            &&& equation.stores(column)
            &&& within(gradient.terms@, columns)
            &&& within(other_rows@, rows)
        },
        Rule::DependentRow { row, coefficients } => row < rows && within(coefficients@, rows),
        Rule::MergedRow { keep, removed, .. } => keep < rows && removed < rows,
        Rule::DeletedRow(row) => row < rows,
        Rule::TightenedBound { column, equation, .. } => column < columns && equation.fits(
            columns,
            rows,
        ) && equation.stores(column),
        Rule::TightenedRow { row, source, .. } => row < rows && source < rows,
        Rule::ParallelColumns { keep, removed, .. } => keep < columns && removed < columns,
        Rule::Unlocked { column, rows: saved, .. } => column < columns && forall|k: int|
            0 <= k < saved@.len() ==> (#[trigger] saved@[k]).fits(columns, rows)
                && saved@[k].stores(column),
        Rule::DoubletonChain { steps } => lifting::steps_within(steps@, columns, rows),
        Rule::BoundShift { column, other, row, .. } => column < columns && other < columns && row
            < rows,
        Rule::LpFold { columns: cs, rows: rs } => lifting::classes_within(cs@, columns)
            && lifting::classes_within(rs@, rows),
        Rule::Eliminated { column, slopes, .. } => column < columns && within(slopes@, columns),
    }
}

impl<
    P: Fn(Real, Real) -> Real,
    T: Fn(Real, Real) -> Real,
    D: Fn(Real, Real) -> Real,
    H: Fn(Real, Real) -> Real,
> Arithmetic<P, T, D, H> {
    /// A derivative at a point.
    pub open spec fn slope(&self, constant: Real, terms: Seq<(usize, Real)>, x: Seq<Real>) -> Real
        decreases terms.len(),
    {
        if terms.len() == 0 {
            constant
        } else {
            self.sum(
                self.slope(constant, terms.drop_last(), x),
                self.product(terms.last().1, x[terms.last().0 as int]),
            )
        }
    }

    pub fn slope_of(&self, gradient: &Gradient, x: &Vec<Real>) -> (r: Real)
        requires
            self.wf(),
            within(gradient.terms@, x@.len()),
        ensures
            r == self.slope(gradient.constant, gradient.terms@, x@),
    {
        let mut total = gradient.constant;
        let mut k: usize = 0;
        let ghost terms = gradient.terms@;
        assert(terms.take(0) =~= Seq::<(usize, Real)>::empty());
        while k < gradient.terms.len()
            invariant
                terms == gradient.terms@,
                k <= terms.len(),
                self.wf(),
                within(gradient.terms@, x@.len()),
                total == self.slope(gradient.constant, terms.take(k as int), x@),
            decreases terms.len() - k,
        {
            let (j, a): (usize, Real) = gradient.terms[k];
            assert(terms[k as int].0 < x@.len());
            assert(terms.take(k + 1).drop_last() =~= terms.take(k as int));
            let term = self.product_of(a, x[j]);
            total = self.sum_of(total, term);
            k = k + 1;
        }
        assert(terms.take(k as int) =~= terms);
        total
    }

    /// Whether a value lies at a bound, up to a relative tolerance.
    pub open spec fn near(&self, x: Real, bound: Real) -> bool {
        bound.finite() && self.difference(x, bound).absolute().le(
            self.product(
                Real { bits: ACTIVITY_TOLERANCE },
                self.sum(one(), x.absolute().larger(bound.absolute())),
            ),
        )
    }

    pub fn active(&self, x: Real, bound: Real) -> (b: bool)
        requires
            self.wf(),
        ensures
            b == self.near(x, bound),
    {
        bound.is_finite() && {
            let gap = self.difference_of(x, bound).abs();
            let scale = self.sum_of(one(), x.abs().max(bound.abs()));
            let limit = self.product_of(Real::from_bits(ACTIVITY_TOLERANCE), scale);
            gap.at_most(limit)
        }
    }

    /// The length of the listed multipliers.
    pub open spec fn norm(&self, list: Seq<usize>, y: Seq<Real>) -> Real
        decreases list.len(),
    {
        if list.len() == 0 {
            zero()
        } else {
            self.length(self.norm(list.drop_last(), y), y[list.last() as int])
        }
    }

    pub fn norm_of(&self, list: &Vec<usize>, y: &Vec<Real>) -> (r: Real)
        requires
            self.wf(),
            all_within(list@, y@.len()),
        ensures
            r == self.norm(list@, y@),
    {
        let mut total = zero();
        let mut k: usize = 0;
        assert(list@.take(0) =~= Seq::<usize>::empty());
        while k < list.len()
            invariant
                k <= list@.len(),
                self.wf(),
                all_within(list@, y@.len()),
                total == self.norm(list@.take(k as int), y@),
            decreases list@.len() - k,
        {
            let i: usize = list[k];
            assert(list@[k as int] < y@.len());
            assert(list@.take(k + 1).drop_last() =~= list@.take(k as int));
            total = self.length_of(total, y[i]);
            k = k + 1;
        }
        assert(list@.take(k as int) =~= list@);
        total
    }

    /// One value after a multiple of every listed value was added to it, or
    /// subtracted from it.
    pub open spec fn transferred(
        &self,
        y: Seq<Real>,
        to: int,
        targets: Seq<(usize, Real)>,
        subtract: bool,
    ) -> Seq<Real>
        decreases targets.len(),
    {
        if targets.len() == 0 {
            y
        } else {
            let before = self.transferred(y, to, targets.drop_last(), subtract);
            let (i, alpha) = targets.last();
            let term = self.product(alpha, before[i as int]);
            before.update(
                to,
                if subtract {
                    self.difference(before[to], term)
                } else {
                    self.sum(before[to], term)
                },
            )
        }
    }

    pub fn transfer(&self, y: &mut Vec<Real>, to: usize, targets: &Entries, subtract: bool)
        requires
            self.wf(),
            to < old(y)@.len(),
            within(targets@, old(y)@.len()),
        ensures
            final(y)@ == self.transferred(old(y)@, to as int, targets@, subtract),
            final(y)@.len() == old(y)@.len(),
    {
        let ghost start = y@;
        let mut k: usize = 0;
        assert(targets@.take(0) =~= Seq::<(usize, Real)>::empty());
        while k < targets.len()
            invariant
                k <= targets@.len(),
                self.wf(),
                y@.len() == start.len(),
                to < y@.len(),
                within(targets@, y@.len()),
                y@ == self.transferred(start, to as int, targets@.take(k as int), subtract),
            decreases targets@.len() - k,
        {
            let (i, alpha): (usize, Real) = targets[k];
            assert(targets@[k as int].0 < y@.len());
            assert(targets@.take(k + 1).drop_last() =~= targets@.take(k as int));
            let term = self.product_of(alpha, y[i]);
            let value = if subtract {
                self.difference_of(y[to], term)
            } else {
                self.sum_of(y[to], term)
            };
            y.set(to, value);
            k = k + 1;
        }
        assert(targets@.take(k as int) =~= targets@);
    }

    /// Multipliers of bounds after a multiple of a row moved away from them.
    pub open spec fn relieved(&self, z: Seq<Real>, entries: Seq<(usize, Real)>, theta: Real) -> Seq<
        Real,
    >
        decreases entries.len(),
    {
        if entries.len() == 0 {
            z
        } else {
            let before = self.relieved(z, entries.drop_last(), theta);
            let (j, a) = entries.last();
            before.update(
                j as int,
                self.difference(before[j as int], self.product(a, theta)),
            )
        }
    }

    pub(crate) fn relieve(&self, z: &mut Vec<Real>, entries: &Entries, theta: Real)
        requires
            self.wf(),
            within(entries@, old(z)@.len()),
        ensures
            final(z)@ == self.relieved(old(z)@, entries@, theta),
            final(z)@.len() == old(z)@.len(),
    {
        let ghost start = z@;
        let mut k: usize = 0;
        assert(entries@.take(0) =~= Seq::<(usize, Real)>::empty());
        while k < entries.len()
            invariant
                k <= entries@.len(),
                self.wf(),
                z@.len() == start.len(),
                within(entries@, z@.len()),
                z@ == self.relieved(start, entries@.take(k as int), theta),
            decreases entries@.len() - k,
        {
            let (j, a): (usize, Real) = entries[k];
            assert(entries@[k as int].0 < z@.len());
            assert(entries@.take(k + 1).drop_last() =~= entries@.take(k as int));
            let term = self.product_of(a, theta);
            let value = self.difference_of(z[j], term);
            z.set(j, value);
            k = k + 1;
        }
        assert(entries@.take(k as int) =~= entries@);
    }
}

} // verus!
