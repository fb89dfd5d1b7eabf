//! Columns that another column can always stand in for.

use crate::arithmetic::Arithmetic;
use crate::bounds::{RowDomain, Side};
use crate::direction;
use crate::listing;
use crate::merge;
use crate::model::Model;
use crate::number::Real;
use crate::objective::Objective;
use crate::passes::{self, Work};
use crate::pivots::capped_product;
use crate::settings::WorkLimit;
use crate::sparsify;
use vstd::prelude::*;

verus! {

/// The first value of a fingerprint.
pub const BASIS: u64 = 0xcbf2_9ce4_8422_2325;

/// The next value of a fingerprint.
pub open spec fn hashed(print: u64, word: u64) -> u64 {
    (((print ^ word) as int * 0x0000_0100_0000_01b3) % 0x1_0000_0000_0000_0000) as u64
}

fn hash_word(print: u64, word: u64) -> (next: u64)
    ensures
        next == hashed(print, word),
{
    (((print ^ word) as u128 * 0x0000_0100_0000_01b3) % 0x1_0000_0000_0000_0000) as u64
}

/// A row with two finite sides.
pub open spec fn two_sided(domain: RowDomain) -> bool {
    domain matches RowDomain::Linear(b) && b.lower.finite() && b.upper.finite()
}

/// The entries of a column in rows with two finite sides, from place `k` on, in a
/// fingerprint.
pub open spec fn sided_print(
    entries: Seq<(usize, Real)>,
    rows: Seq<RowDomain>,
    print: u64,
    k: int,
) -> u64
    decreases entries.len() - k,
{
    if k >= entries.len() {
        print
    } else {
        let (i, a) = entries[k];
        sided_print(
            entries,
            rows,
            if two_sided(rows[i as int]) {
                hashed(hashed(print, i as u64), a.bits)
            } else {
                print
            },
            k + 1,
        )
    }
}

/// The fingerprint of a column.
pub open spec fn column_print(model: Model, j: int) -> u64 {
    sided_print(listing::line(model.a@, true, j), model.rows@, BASIS, 0)
}

impl Model {
    /// A fingerprint of the entries in rows with two finite sides. Two such
    /// columns can stand in for each other only where these entries agree.
    pub fn equality_fingerprint(&self, j: usize) -> (print: u64)
        requires
            self.wf(),
            j < self.bounds@.len(),
        ensures
            print == column_print(*self, j as int),
    {
        let entries = self.column_entries(j);
        let mut print: u64 = BASIS;
        let mut k: usize = 0;
        while k < entries.len()
            invariant
                k <= entries@.len(),
                forall|t: int|
                    0 <= t < entries@.len() ==> (#[trigger] entries@[t]).0 < self.rows@.len(),
                sided_print(entries@, self.rows@, BASIS, 0) == sided_print(
                    entries@,
                    self.rows@,
                    print,
                    k as int,
                ),
            decreases entries@.len() - k,
        {
            assert(entries@[k as int].0 < self.rows@.len());
            let (i, a): (usize, Real) = entries[k];
            let sided = match self.rows[i] {
                RowDomain::Linear(b) => b.lower.is_finite() && b.upper.is_finite(),
                _ => false,
            };
            if sided {
                print = hash_word(hash_word(print, i as u64), a.to_bits());
            }
            k = k + 1;
        }
        print
    }
}

/// A row lets weight move so that its activity changes by a multiple of `d`.
pub open spec fn shift_allowed(domain: RowDomain, d: Real) -> bool {
    domain matches RowDomain::Linear(b) && d.finite() && match (b.lower.finite(), b.upper.finite()) {
        (true, true) => d.zero(),
        (false, true) => d.le(crate::number::zero()),
        (true, false) => crate::number::zero().le(d),
        (false, false) => true,
    }
}

fn allows_shift(domain: RowDomain, d: Real) -> (b: bool)
    ensures
        b == shift_allowed(domain, d),
{
    match domain {
        RowDomain::Linear(b) => d.is_finite() && if b.lower.is_finite() {
            if b.upper.is_finite() {
                d.is_zero()
            } else {
                crate::number::zero().at_most(d)
            }
        } else if b.upper.is_finite() {
            d.at_most(crate::number::zero())
        } else {
            true
        },
        _ => false,
    }
}

/// Which sides of a column are absent or implied by a row: the upper, the lower.
pub type Open = (bool, bool);

/// How far weight can move between two columns.
#[derive(Clone, Copy, Debug, PartialEq, Eq, Structural)]
pub enum Way {
    Blocked,
    /// Until the second column is at its lower bound.
    Down,
    /// Until the first column is at its upper bound.
    Up,
    Endless,
}

/// What to do with a pair of columns.
#[derive(Clone, Copy, Debug, PartialEq, Eq, Structural)]
pub enum PairVerdict {
    Skip,
    /// Fix this column.
    Fix(usize, Real),
    /// The objective falls forever as the first rises and the second falls.
    Ray(usize, usize),
}

/// What a pass remembers of columns it has looked at.
#[derive(Clone, Debug)]
pub struct Scratch {
    pub prints: Vec<Option<u64>>,
    pub open: Vec<Option<Open>>,
}

/// The contents of a scratch.
pub ghost struct Seen {
    pub prints: Seq<Option<u64>>,
    pub open: Seq<Option<Open>>,
}

impl View for Scratch {
    type V = Seen;

    open spec fn view(&self) -> Seen {
        Seen { prints: self.prints@, open: self.open@ }
    }
}

impl Seen {
    pub open spec fn fits(self, columns: nat) -> bool {
        self.prints.len() == columns && self.open.len() == columns
    }

    /// The fingerprint of a column, as remembered or fresh.
    pub open spec fn print(self, model: Model, j: usize) -> u64 {
        match self.prints[j as int] {
            Some(print) => print,
            None => column_print(model, j as int),
        }
    }

    pub open spec fn with_print(self, model: Model, j: usize) -> Seen {
        Seen { prints: self.prints.update(j as int, Some(self.print(model, j))), ..self }
    }
}

impl Scratch {
    /// Nothing is remembered of any column.
    pub fn new(columns: usize) -> (scratch: Self)
        ensures
            scratch@ == (Seen {
                prints: Seq::new(columns as nat, |j: int| None),
                open: Seq::new(columns as nat, |j: int| None),
            }),
    {
        let mut prints: Vec<Option<u64>> = Vec::new();
        let mut open: Vec<Option<Open>> = Vec::new();
        let mut j: usize = 0;
        while j < columns
            invariant
                j <= columns,
                prints@ =~= Seq::new(j as nat, |j: int| None),
                open@ =~= Seq::new(j as nat, |j: int| None),
            decreases columns - j,
        {
            prints.push(None);
            open.push(None);
            j = j + 1;
        }
        Scratch { prints, open }
    }

    fn print(&mut self, model: &Model, j: usize) -> (print: u64)
        requires
            model.wf(),
            j < model.bounds@.len(),
            old(self)@.fits(model.bounds@.len()),
        ensures
            print == old(self)@.print(*model, j),
            final(self)@ == old(self)@.with_print(*model, j),
    {
        match self.prints[j] {
            Some(print) => {
                assert(self.prints@ =~= self.prints@.update(j as int, Some(print)));
                print
            },
            None => {
                let print: u64 = model.equality_fingerprint(j);
                self.prints.set(j, Some(print));
                print
            },
        }
    }
}

/// How many places are left from `x` on.
pub open spec fn ahead(n: nat, x: int) -> int {
    if x < n {
        n - x
    } else {
        0
    }
}

impl<
    P: Fn(Real, Real) -> Real,
    T: Fn(Real, Real) -> Real,
    D: Fn(Real, Real) -> Real,
    H: Fn(Real, Real) -> Real,
> Arithmetic<P, T, D, H> {
    /// The sides of a column that are infinite, or that a row implies.
    pub open spec fn open_sides(&self, model: Model, j: usize) -> Open {
        let b = model.bounds@[j as int];
        (
            !b.upper.finite() || self.needless(model, j, Side::Upper),
            !b.lower.finite() || self.needless(model, j, Side::Lower),
        )
    }

    /// The open sides of a column, as remembered or fresh.
    pub open spec fn open_of(&self, seen: Seen, model: Model, j: usize) -> Open {
        match seen.open[j as int] {
            Some(open) => open,
            None => self.open_sides(model, j),
        }
    }

    pub open spec fn with_open(&self, seen: Seen, model: Model, j: usize) -> Seen {
        Seen { open: seen.open.update(j as int, Some(self.open_of(seen, model, j))), ..seen }
    }

    fn look_open(&self, model: &Model, scratch: &mut Scratch, j: usize) -> (open: Open)
        requires
            self.wf(),
            model.wf(),
            j < model.bounds@.len(),
            old(scratch)@.fits(model.bounds@.len()),
        ensures
            open == self.open_of(old(scratch)@, *model, j),
            final(scratch)@ == self.with_open(old(scratch)@, *model, j),
    {
        match scratch.open[j] {
            Some(open) => {
                assert(scratch.open@ =~= scratch.open@.update(j as int, Some(open)));
                open
            },
            None => {
                let b = model.bounds[j];
                let open: Open = (
                    !b.upper.is_finite() || self.bound_implied(model, j, Side::Upper),
                    !b.lower.is_finite() || self.bound_implied(model, j, Side::Lower),
                );
                scratch.open.set(j, Some(open));
                open
            },
        }
    }

    /// Merge two columns from these places on: whether every row lets weight move
    /// from the second to the first, and the steps made.
    pub open spec fn shifts(
        &self,
        left: Seq<(usize, Real)>,
        right: Seq<(usize, Real)>,
        rows: Seq<RowDomain>,
        x: int,
        y: int,
        steps: nat,
    ) -> (bool, nat)
        decreases ahead(left.len(), x) + ahead(right.len(), y),
    {
        if x >= left.len() && y >= right.len() {
            (true, steps)
        } else {
            let both = x < left.len() && y < right.len() && left[x].0 == right[y].0;
            let first = y >= right.len() || x < left.len() && left[x].0 < right[y].0;
            let (i, d) = if both {
                (left[x].0, self.difference(left[x].1, right[y].1))
            } else if first {
                left[x]
            } else {
                (right[y].0, right[y].1.opposite())
            };
            if !shift_allowed(rows[i as int], d) {
                (false, steps + 1)
            } else {
                self.shifts(
                    left,
                    right,
                    rows,
                    if both || first {
                        x + 1
                    } else {
                        x
                    },
                    if both || !first {
                        y + 1
                    } else {
                        y
                    },
                    steps + 1,
                )
            }
        }
    }

    /// How the activity of row `i` changes as weight moves between two columns.
    pub open spec fn gap(
        &self,
        left: Seq<(usize, Real)>,
        right: Seq<(usize, Real)>,
        i: usize,
    ) -> Real {
        match (merge::entry(left, i), merge::entry(right, i)) {
            (Some(a), Some(b)) => self.difference(a, b),
            (Some(a), None) => a,
            (None, Some(b)) => b.opposite(),
            (None, None) => crate::number::zero(),
        }
    }

    /// Where weight may move between two columns, every row that either of them
    /// enters allows it.
    pub proof fn shifts_respect_every_row(
        &self,
        left: Seq<(usize, Real)>,
        right: Seq<(usize, Real)>,
        rows: Seq<RowDomain>,
        i: usize,
    )
        requires
            merge::increasing(left),
            merge::increasing(right),
            self.shifts(left, right, rows, 0, 0, 0).0,
            merge::entry(left, i) is Some || merge::entry(right, i) is Some,
        ensures
            shift_allowed(rows[i as int], self.gap(left, right, i)),
    {
        self.shifts_respect_rest(left, right, rows, i, 0, 0, 0);
    }

    proof fn shifts_respect_rest(
        &self,
        left: Seq<(usize, Real)>,
        right: Seq<(usize, Real)>,
        rows: Seq<RowDomain>,
        i: usize,
        x: int,
        y: int,
        steps: nat,
    )
        requires
            merge::increasing(left),
            merge::increasing(right),
            0 <= x <= left.len(),
            0 <= y <= right.len(),
            forall|t: int, s: int|
                0 <= t < x && y <= s < right.len() ==> (#[trigger] left[t]).0 < (
                #[trigger] right[s]).0,
            forall|t: int, s: int|
                x <= t < left.len() && 0 <= s < y ==> (#[trigger] right[s]).0 < (
                #[trigger] left[t]).0,
            self.shifts(left, right, rows, x, y, steps).0,
            (exists|t: int| x <= t < left.len() && (#[trigger] left[t]).0 == i) || (exists|s: int|
                y <= s < right.len() && (#[trigger] right[s]).0 == i),
        ensures
            shift_allowed(rows[i as int], self.gap(left, right, i)),
        decreases left.len() - x + right.len() - y,
    {
        let both = x < left.len() && y < right.len() && left[x].0 == right[y].0;
        let first = y >= right.len() || x < left.len() && left[x].0 < right[y].0;
        if both {
            merge::entry_is(left, x);
            merge::entry_is(right, y);
            if left[x].0 != i {
                self.shifts_respect_rest(left, right, rows, i, x + 1, y + 1, steps + 1);
            }
        } else if first {
            merge::entry_is(left, x);
            merge::entry_absent(right, y, left[x].0);
            if left[x].0 != i {
                self.shifts_respect_rest(left, right, rows, i, x + 1, y, steps + 1);
            }
        } else {
            merge::entry_is(right, y);
            merge::entry_absent(left, x, right[y].0);
            if right[y].0 != i {
                self.shifts_respect_rest(left, right, rows, i, x, y + 1, steps + 1);
            }
        }
    }

    /// Column `j` costs no more than `k`, and every row lets weight move to it.
    pub open spec fn dominance(&self, model: Model, objective: Objective, j: usize, k: usize) -> (
        bool,
        nat,
    ) {
        if objective.c@[k as int].lt(objective.c@[j as int]) {
            (false, 0)
        } else {
            self.shifts(
                listing::line(model.a@, true, j as int),
                listing::line(model.a@, true, k as int),
                model.rows@,
                0,
                0,
                0,
            )
        }
    }

    /// Whether one column can stand in for another, and the steps made.
    pub fn dominates(&self, model: &Model, objective: &Objective, j: usize, k: usize) -> (r: (
        bool,
        u128,
    ))
        requires
            self.wf(),
            model.wf(),
            objective.c@.len() == model.bounds@.len(),
            j < model.bounds@.len(),
            k < model.bounds@.len(),
        ensures
            (r.0, r.1 as nat) == self.dominance(*model, *objective, j, k),
    {
        if objective.c[k].less(objective.c[j]) {
            return (false, 0);
        }
        let left = model.column_entries(j);
        let right = model.column_entries(k);
        let ghost goal = self.dominance(*model, *objective, j, k);
        assert(left.len() == left@.len() && right.len() == right@.len());
        let mut steps: u128 = 0;
        let (mut x, mut y): (usize, usize) = (0, 0);
        while x < left.len() || y < right.len()
            invariant
                self.wf(),
                x <= left@.len(),
                y <= right@.len(),
                forall|t: int|
                    0 <= t < left@.len() ==> (#[trigger] left@[t]).0 < model.rows@.len(),
                forall|t: int|
                    0 <= t < right@.len() ==> (#[trigger] right@[t]).0 < model.rows@.len(),
                steps <= x + y,
                left@.len() <= usize::MAX,
                right@.len() <= usize::MAX,
                goal == self.dominance(*model, *objective, j, k),
                goal == self.shifts(left@, right@, model.rows@, x as int, y as int, steps as nat),
            decreases left@.len() - x + right@.len() - y,
        {
            let both = x < left.len() && y < right.len() && left[x].0 == right[y].0;
            let first = y >= right.len() || x < left.len() && left[x].0 < right[y].0;
            let (i, d): (usize, Real) = if both {
                (left[x].0, self.difference_of(left[x].1, right[y].1))
            } else if first {
                left[x]
            } else {
                (right[y].0, right[y].1.neg())
            };
            assert(i < model.rows@.len()) by {
                if both || first {
                    assert(left@[x as int].0 < model.rows@.len());
                } else {
                    assert(right@[y as int].0 < model.rows@.len());
                }
            }
            steps = steps + 1;
            if !allows_shift(model.rows[i], d) {
                return (false, steps);
            }
            if both || first {
                x = x + 1;
            }
            if both || !first {
                y = y + 1;
            }
        }
        (true, steps)
    }

    /// How far weight can move from `k` to `j`, and what is remembered then.
    pub open spec fn way(&self, seen: Seen, model: Model, j: usize, k: usize) -> (Way, Seen) {
        let up = model.bounds@[j as int].upper;
        let down = model.bounds@[k as int].lower;
        let one = if down.finite() {
            self.with_open(seen, model, j)
        } else {
            seen
        };
        let two = if up.finite() {
            self.with_open(one, model, k)
        } else {
            one
        };
        if down.finite() && self.open_of(seen, model, j).0 {
            (Way::Down, one)
        } else if up.finite() && self.open_of(one, model, k).1 {
            (Way::Up, two)
        } else if !up.finite() && !down.finite() {
            (Way::Endless, two)
        } else {
            (Way::Blocked, two)
        }
    }

    fn find_way(&self, model: &Model, scratch: &mut Scratch, j: usize, k: usize) -> (way: Way)
        requires
            self.wf(),
            model.wf(),
            j < model.bounds@.len(),
            k < model.bounds@.len(),
            old(scratch)@.fits(model.bounds@.len()),
        ensures
            (way, final(scratch)@) == self.way(old(scratch)@, *model, j, k),
            final(scratch)@.fits(model.bounds@.len()),
    {
        let up = model.bounds[j].upper;
        let down = model.bounds[k].lower;
        if down.is_finite() && self.look_open(model, scratch, j).0 {
            return Way::Down;
        }
        if up.is_finite() && self.look_open(model, scratch, k).1 {
            return Way::Up;
        }
        if !up.is_finite() && !down.is_finite() {
            Way::Endless
        } else {
            Way::Blocked
        }
    }

    /// A pair whose bounds rule a move out is not merged.
    pub open spec fn screened(&self, seen: Seen, model: Model, j: usize, k: usize) -> (bool, Seen) {
        let (bj, bk) = (model.bounds@[j as int], model.bounds@[k as int]);
        if !bj.upper.finite() || !bk.lower.finite() || !bk.upper.finite() || !bj.lower.finite() {
            (true, seen)
        } else {
            let (there, one) = self.way(seen, model, j, k);
            if there != Way::Blocked {
                (true, one)
            } else {
                let (back, two) = self.way(one, model, k, j);
                (back != Way::Blocked, two)
            }
        }
    }

    /// What becomes of a pair of live linear columns, what is remembered, and the
    /// work that is left.
    pub open spec fn pair_plan(
        &self,
        seen: Seen,
        model: Model,
        objective: Objective,
        j: usize,
        k: usize,
        left: nat,
    ) -> (PairVerdict, Seen, nat) {
        let one = seen.with_print(model, j);
        let two = one.with_print(model, k);
        if seen.print(model, j) != one.print(model, k) {
            (PairVerdict::Skip, two, left)
        } else {
            let (promising, three) = self.screened(two, model, j, k);
            if !promising {
                (PairVerdict::Skip, three, left)
            } else {
                let (forward, steps) = self.dominance(model, objective, j, k);
                let (backward, more) = if forward {
                    (false, 0nat)
                } else {
                    self.dominance(model, objective, k, j)
                };
                let rest = if steps + more < left {
                    (left - steps - more) as nat
                } else {
                    0
                };
                if !forward && !backward {
                    (PairVerdict::Skip, three, rest)
                } else {
                    let (x, y) = if forward {
                        (j, k)
                    } else {
                        (k, j)
                    };
                    let (way, four) = self.way(three, model, x, y);
                    let verdict = match way {
                        Way::Blocked => PairVerdict::Skip,
                        Way::Down => PairVerdict::Fix(y, model.bounds@[y as int].lower),
                        Way::Up => PairVerdict::Fix(x, model.bounds@[x as int].upper),
                        Way::Endless => if objective.c@[x as int].same(objective.c@[y as int]) {
                            PairVerdict::Skip
                        } else {
                            PairVerdict::Ray(x, y)
                        },
                    };
                    (verdict, four, rest)
                }
            }
        }
    }

    /// Examine a pair of live linear columns.
    pub fn judge_pair(
        &self,
        model: &Model,
        objective: &Objective,
        scratch: &mut Scratch,
        j: usize,
        k: usize,
        left: usize,
    ) -> (r: (PairVerdict, usize))
        requires
            self.wf(),
            model.wf(),
            objective.c@.len() == model.bounds@.len(),
            j < model.bounds@.len(),
            k < model.bounds@.len(),
            old(scratch)@.fits(model.bounds@.len()),
        ensures
            (r.0, final(scratch)@, r.1 as nat) == self.pair_plan(
                old(scratch)@,
                *model,
                *objective,
                j,
                k,
                left as nat,
            ),
            r.1 <= left,
            final(scratch)@.fits(model.bounds@.len()),
            r.0 matches PairVerdict::Fix(column, _) ==> column == j || column == k,
    {
        let first: u64 = scratch.print(model, j);
        let second: u64 = scratch.print(model, k);
        if first != second {
            return (PairVerdict::Skip, left);
        }
        let (bj, bk) = (model.bounds[j], model.bounds[k]);
        let quick = !bj.upper.is_finite() || !bk.lower.is_finite() || !bk.upper.is_finite()
            || !bj.lower.is_finite();
        if !quick && self.find_way(model, scratch, j, k) == Way::Blocked && self.find_way(
            model,
            scratch,
            k,
            j,
        ) == Way::Blocked {
            return (PairVerdict::Skip, left);
        }
        let (forward, steps): (bool, u128) = self.dominates(model, objective, j, k);
        let (backward, more): (bool, u128) = if forward {
            (false, 0)
        } else {
            self.dominates(model, objective, k, j)
        };
        let rest: usize = if steps < left as u128 && more < left as u128 - steps {
            (left as u128 - steps - more) as usize
        } else {
            0
        };
        if !forward && !backward {
            return (PairVerdict::Skip, rest);
        }
        let (x, y): (usize, usize) = if forward {
            (j, k)
        } else {
            (k, j)
        };
        let verdict = match self.find_way(model, scratch, x, y) {
            Way::Blocked => PairVerdict::Skip,
            Way::Down => PairVerdict::Fix(y, model.bounds[y].lower),
            Way::Up => PairVerdict::Fix(x, model.bounds[x].upper),
            Way::Endless => if objective.c[x].equals(objective.c[y]) {
                PairVerdict::Skip
            } else {
                PairVerdict::Ray(x, y)
            },
        };
        (verdict, rest)
    }
}

/// Candidates come from rows no longer than this: nearly every dominated pair
/// shares a short row, and longer ones would spend the work on visits that rarely
/// pay.
pub const MAX_CANDIDATE_ROW: usize = 256;

/// Where a search for dominated columns stands.
pub ghost struct Contest {
    pub work: Work,
    pub seen: Seen,
    pub left: nat,
}

pub open spec fn contest(
    model: Model,
    objective: Objective,
    scratch: Scratch,
    left: usize,
) -> Contest {
    Contest { work: passes::work(model, objective), seen: scratch@, left: left as nat }
}

/// The number of entries of a column.
pub open spec fn degree(model: Model, j: usize) -> nat {
    listing::line(model.a@, true, j as int).len()
}

/// The number of entries of a row.
pub open spec fn length(model: Model, i: usize) -> nat {
    listing::line(model.a@, false, i as int).len()
}

/// No row of the column is shorter; among equally short ones this comes first.
pub open spec fn is_shortest(model: Model, j: usize, i: usize) -> bool {
    let column = listing::line(model.a@, true, j as int);
    &&& exists|t: int| 0 <= t < column.len() && (#[trigger] column[t]).0 == i
    &&& forall|t: int|
        0 <= t < column.len() ==> length(model, i) < length(model, (#[trigger] column[t]).0)
            || length(model, i) == length(model, column[t].0) && i <= column[t].0
}

/// The shortest row of a column.
pub open spec fn shortest_row(model: Model, j: usize) -> usize {
    choose|i: usize| is_shortest(model, j, i)
}

proof fn shortest_is(model: Model, j: usize, i: usize)
    requires
        is_shortest(model, j, i),
    ensures
        shortest_row(model, j) == i,
{
    let k = shortest_row(model, j);
    assert(is_shortest(model, j, k));
    let column = listing::line(model.a@, true, j as int);
    let s = choose|s: int| 0 <= s < column.len() && (#[trigger] column[s]).0 == i;
    let t = choose|t: int| 0 <= t < column.len() && (#[trigger] column[t]).0 == k;
    assert(column[s].0 == i && column[t].0 == k);
}

fn find_shortest(model: &Model, j: usize) -> (i: Option<usize>)
    requires
        model.wf(),
        j < model.bounds@.len(),
    ensures
        match i {
            Some(i) => degree(*model, j) > 0 && i == shortest_row(*model, j) && i
                < model.rows@.len(),
            None => degree(*model, j) == 0,
        },
{
    let column = model.column_entries(j);
    if column.len() == 0 {
        return None;
    }
    assert(column@[0].0 < model.rows@.len());
    let mut best: usize = column[0].0;
    let first = model.row_entries(best);
    let mut size: usize = first.len();
    let mut t: usize = 1;
    assert(column@[0].0 == best);
    while t < column.len()
        invariant
            model.wf(),
            1 <= t <= column@.len(),
            column@ == listing::line(model.a@, true, j as int),
            forall|s: int| 0 <= s < column@.len() ==> (#[trigger] column@[s]).0 < model.rows@.len(),
            size == length(*model, best),
            best < model.rows@.len(),
            exists|s: int| 0 <= s < column@.len() && (#[trigger] column@[s]).0 == best,
            forall|s: int|
                0 <= s < t ==> length(*model, best) < length(*model, (#[trigger] column@[s]).0)
                    || length(*model, best) == length(*model, column@[s].0) && best <= column@[s].0,
        decreases column@.len() - t,
    {
        assert(column@[t as int].0 < model.rows@.len());
        let i: usize = column[t].0;
        let entries = model.row_entries(i);
        let n: usize = entries.len();
        if n < size || n == size && i < best {
            best = i;
            size = n;
        }
        t = t + 1;
    }
    proof {
        assert(is_shortest(*model, j, best));
        shortest_is(*model, j, best);
    }
    Some(best)
}

impl<
    P: Fn(Real, Real) -> Real,
    T: Fn(Real, Real) -> Real,
    D: Fn(Real, Real) -> Real,
    H: Fn(Real, Real) -> Real,
> Arithmetic<P, T, D, H> {
    /// A pair was examined, and its verdict carried out.
    pub open spec fn duel_turn(&self, before: Contest, after: Contest, j: usize, k: usize) -> bool {
        let (verdict, seen, left) = self.pair_plan(
            before.seen,
            before.work.model,
            before.work.objective,
            j,
            k,
            before.left,
        );
        &&& after.left == left
        &&& match verdict {
            PairVerdict::Skip => after == Contest { seen, left, ..before },
            PairVerdict::Fix(column, value) => {
                ||| self.fixed_to(
                    before.work.model,
                    before.work.objective,
                    after.work.model,
                    after.work.objective,
                    column,
                    value,
                ) && after.seen == Seen {
                    prints: seen.prints.update(column as int, None),
                    ..seen
                }
                ||| after == Contest { seen, left, ..before } && self.unfixable(
                    before.work,
                    column,
                    value,
                )
            },
            PairVerdict::Ray(..) => false,
        }
    }

    /// Examine a pair of live linear columns and fix the dominated one, or tell
    /// how the objective falls forever.
    pub fn dominated_pair(
        &self,
        model: &mut Model,
        objective: &mut Objective,
        scratch: &mut Scratch,
        j: usize,
        k: usize,
        left: usize,
    ) -> (r: Result<(Option<usize>, usize), (usize, usize)>)
        requires
            self.wf(),
            old(model).wf(),
            old(objective).wf(),
            old(objective).c@.len() == old(model).bounds@.len(),
            j < old(model).bounds@.len(),
            k < old(model).bounds@.len(),
            old(model).alive@[j as int],
            old(model).alive@[k as int],
            old(scratch)@.fits(old(model).bounds@.len()),
        ensures
            final(model).wf(),
            final(objective).wf(),
            final(objective).c@.len() == final(model).bounds@.len(),
            final(model).rows@.len() == old(model).rows@.len(),
            final(model).bounds@.len() == old(model).bounds@.len(),
            final(scratch)@.fits(final(model).bounds@.len()),
            match r {
                Ok((column, rest)) => {
                    &&& rest <= left
                    &&& column matches Some(c) ==> c == j || c == k
                    &&& self.duel_turn(
                        contest(*old(model), *old(objective), *old(scratch), left),
                        contest(*final(model), *final(objective), *final(scratch), rest),
                        j,
                        k,
                    )
                    &&& column is None ==> *final(model) == *old(model)
                    &&& column matches Some(c) ==> !final(model).alive@[c as int]
                        && final(model).tape@.len() == old(model).tape@.len() + 1
                },
                Err((x, y)) => {
                    &&& *final(model) == *old(model)
                    &&& *final(objective) == *old(objective)
                    &&& self.pair_plan(
                        old(scratch)@,
                        *old(model),
                        *old(objective),
                        j,
                        k,
                        left as nat,
                    ).0 == PairVerdict::Ray(x, y)
                },
            },
    {
        let (verdict, rest): (PairVerdict, usize) = self.judge_pair(
            model,
            objective,
            scratch,
            j,
            k,
            left,
        );
        match verdict {
            PairVerdict::Skip => Ok((None, rest)),
            PairVerdict::Fix(column, value) => {
                if self.fix_variable(model, objective, column, value) {
                    scratch.prints.set(column, None);
                    Ok((Some(column), rest))
                } else {
                    Ok((None, rest))
                }
            },
            PairVerdict::Ray(x, y) => Err((x, y)),
        }
    }

    /// A candidate that is passed over: the column itself, one that is found from
    /// the other side, or one that is not linear.
    pub open spec fn passed_over(w: Work, k: usize, j: usize) -> bool {
        let (near, far) = (degree(w.model, j), degree(w.model, k));
        ||| j == k
        ||| !w.model.alive@[k as int]
        ||| near < far || near == far && j < k
        ||| !direction::linear_column(w.model, w.objective, j as int)
    }

    /// A visit to candidate `j` for column `k`.
    pub open spec fn visit_turn(&self, before: Contest, after: Contest, k: usize, j: usize) -> bool {
        let spent = Contest { left: (before.left - 1) as nat, ..before };
        before.left > 0 && if Self::passed_over(before.work, k, j) {
            after == spent
        } else {
            self.duel_turn(spent, after, j, k)
        }
    }

    pub open spec fn visit_turns(&self, k: usize) -> spec_fn(Contest, Contest, usize) -> bool {
        |before: Contest, after: Contest, j: usize| self.visit_turn(before, after, k, j)
    }

    /// A column for which candidates are looked for.
    pub open spec fn contests(before: Contest, k: usize) -> bool {
        let (model, objective) = (before.work.model, before.work.objective);
        &&& before.left > 0
        &&& direction::linear_column(model, objective, k as int)
        &&& !model.bounds@[k as int].is_equality()
        &&& degree(model, k) > 0
        &&& length(model, shortest_row(model, k)) <= MAX_CANDIDATE_ROW
    }

    /// The candidates for a column: the columns of its shortest row.
    pub open spec fn rivals(model: Model, k: usize) -> Seq<usize> {
        let row = listing::line(model.a@, false, shortest_row(model, k) as int);
        Seq::new(row.len(), |t: int| row[t].0)
    }

    /// The first candidates were visited.
    pub open spec fn visited_first(
        &self,
        before: Contest,
        after: Contest,
        k: usize,
        states: Seq<Contest>,
        items: Seq<usize>,
    ) -> bool {
        let all = Self::rivals(before.work.model, k);
        &&& passes::walk(self.visit_turns(k), states, items)
        &&& states[0] == before
        &&& states.last() == after
        &&& items.len() <= all.len()
        &&& items == all.take(items.len() as int)
    }

    /// The candidates for a column were visited, until the work ran out or the
    /// column was fixed.
    pub open spec fn contest_turn(&self, before: Contest, after: Contest, k: usize) -> bool {
        if Self::contests(before, k) {
            exists|states: Seq<Contest>, items: Seq<usize>|
                {
                    &&& #[trigger] self.visited_first(before, after, k, states, items)
                    &&& {
                        ||| items.len() == Self::rivals(before.work.model, k).len()
                        ||| after.left == 0
                        ||| !after.work.model.alive@[k as int]
                    }
                }
        } else {
            after == before
        }
    }

    pub open spec fn contest_turns(&self) -> spec_fn(Contest, Contest, usize) -> bool {
        |before: Contest, after: Contest, k: usize| self.contest_turn(before, after, k)
    }

    /// The next candidate for a column shows that the objective falls forever as
    /// `x` rises and `y` falls.
    pub open spec fn ray_met(&self, before: Contest, after: Contest, k: usize, x: usize, y: usize) -> bool {
        &&& Self::contests(before, k)
        &&& exists|states: Seq<Contest>, items: Seq<usize>|
            {
                let all = Self::rivals(before.work.model, k);
                let j = all[items.len() as int];
                &&& #[trigger] self.visited_first(before, after, k, states, items)
                &&& items.len() < all.len()
                &&& after.left > 0
                &&& !Self::passed_over(after.work, k, j)
                &&& self.pair_plan(
                    after.seen,
                    after.work.model,
                    after.work.objective,
                    j,
                    k,
                    (after.left - 1) as nat,
                ).0 == PairVerdict::Ray(x, y)
            }
    }

    /// Look for columns that dominate `k`, or that it dominates. The state before
    /// the pair that shows a ray is returned as a ghost.
    fn contest_column(
        &self,
        model: &mut Model,
        objective: &mut Objective,
        scratch: &mut Scratch,
        k: usize,
        left: usize,
    ) -> (r: (Result<usize, (usize, usize)>, Ghost<Contest>))
        requires
            self.wf(),
            old(model).wf(),
            old(objective).wf(),
            old(objective).c@.len() == old(model).bounds@.len(),
            k < old(model).bounds@.len(),
            old(scratch)@.fits(old(model).bounds@.len()),
        ensures
            final(model).wf(),
            final(objective).wf(),
            final(objective).c@.len() == final(model).bounds@.len(),
            final(model).bounds@.len() == old(model).bounds@.len(),
            final(scratch)@.fits(final(model).bounds@.len()),
            final(model).tape@.len() >= old(model).tape@.len(),
            match r.0 {
                Ok(rest) => {
                    &&& rest <= left
                    &&& final(model).tape@.len() - old(model).tape@.len() <= left - rest
                    &&& self.contest_turn(
                        contest(*old(model), *old(objective), *old(scratch), left),
                        contest(*final(model), *final(objective), *final(scratch), rest),
                        k,
                    )
                },
                Err((x, y)) => {
                    &&& r.1@.work == passes::work(*final(model), *final(objective))
                    &&& self.ray_met(
                        contest(*old(model), *old(objective), *old(scratch), left),
                        r.1@,
                        k,
                        x,
                        y,
                    )
                },
            },
    {
        let ghost begin = contest(*model, *objective, *scratch, left);
        if left == 0 || !model.linear_column(objective, k) || model.bounds[k].equality() {
            return (Ok(left), Ghost(begin));
        }
        let row: usize = match find_shortest(model, k) {
            None => {
                return (Ok(left), Ghost(begin));
            },
            Some(row) => row,
        };
        let entries = model.row_entries(row);
        if entries.len() > MAX_CANDIDATE_ROW {
            return (Ok(left), Ghost(begin));
        }
        let ghost all = Self::rivals(*model, k);
        let ghost mut states: Seq<Contest> = seq![begin];
        let ghost mut items: Seq<usize> = Seq::empty();
        let mut rest: usize = left;
        let mut t: usize = 0;
        proof {
            assert(items =~= all.take(0));
        }
        while t < entries.len() && rest > 0
            invariant
                self.wf(),
                model.wf(),
                objective.wf(),
                objective.c@.len() == model.bounds@.len(),
                k < model.bounds@.len(),
                model.bounds@.len() == old(model).bounds@.len(),
                scratch@.fits(model.bounds@.len()),
                begin == contest(*old(model), *old(objective), *old(scratch), left),
                begin.left <= usize::MAX,
                rest <= begin.left,
                Self::contests(begin, k),
                begin.work.model == *old(model),
                all == Self::rivals(*old(model), k),
                all.len() == entries@.len(),
                forall|s: int| 0 <= s < entries@.len() ==> all[s] == (#[trigger] entries@[s]).0,
                forall|s: int|
                    0 <= s < entries@.len() ==> (#[trigger] entries@[s]).0 < model.bounds@.len(),
                t <= entries@.len(),
                items.len() == t,
                self.visited_first(
                    begin,
                    contest(*model, *objective, *scratch, rest),
                    k,
                    states,
                    items,
                ),
                model.tape@.len() >= old(model).tape@.len(),
                model.tape@.len() - old(model).tape@.len() <= begin.left - rest,
            decreases entries@.len() - t,
        {
            let ghost before = contest(*model, *objective, *scratch, rest);
            assert(entries@[t as int].0 < model.bounds@.len());
            let j: usize = entries[t].0;
            assert(all[t as int] == j);
            rest = rest - 1;
            let near = model.column_entries(j);
            let far = model.column_entries(k);
            if j == k || !model.alive[k] || near.len() < far.len() || near.len() == far.len() && j
                < k || !model.linear_column(objective, j) {
                proof {
                    let after = contest(*model, *objective, *scratch, rest);
                    assert(self.visit_turn(before, after, k, j));
                    passes::walk_on(self.visit_turns(k), states, items, after, j);
                    assert(items.push(j) =~= all.take(t + 1));
                    states = states.push(after);
                    items = items.push(j);
                }
            } else {
                match self.dominated_pair(model, objective, scratch, j, k, rest) {
                    Err((x, y)) => {
                        assert(self.visited_first(begin, before, k, states, items));
                        assert(self.ray_met(begin, before, k, x, y));
                        return (Err((x, y)), Ghost(before));
                    },
                    Ok((column, kept)) => {
                        rest = kept;
                        proof {
                            let after = contest(*model, *objective, *scratch, rest);
                            assert(self.visit_turn(before, after, k, j));
                            passes::walk_on(self.visit_turns(k), states, items, after, j);
                            assert(items.push(j) =~= all.take(t + 1));
                            states = states.push(after);
                            items = items.push(j);
                            assert(self.visited_first(begin, after, k, states, items));
                        }
                        if column == Some(k) {
                            return (Ok(rest), Ghost(begin));
                        }
                    },
                }
            }
            t = t + 1;
        }
        (Ok(rest), Ghost(begin))
    }

    /// A search begins with nothing remembered.
    pub open spec fn contest_begins(
        model: Model,
        objective: Objective,
        limit: WorkLimit,
    ) -> Contest {
        let columns = model.bounds@.len();
        Contest {
            work: passes::work(model, objective),
            seen: Seen {
                prints: Seq::new(columns, |j: int| None),
                open: Seq::new(columns, |j: int| None),
            },
            left: limit.allowance(
                sparsify::capped((model.a@.dom().len() * 2) as int) as usize,
            ) as nat,
        }
    }

    /// The search met a ray at the column after those in `states`.
    pub open spec fn ray_ends(
        &self,
        states: Seq<Contest>,
        end: Work,
        columns: nat,
        x: usize,
        y: usize,
    ) -> bool {
        &&& states.len() <= columns
        &&& exists|after: Contest| #[trigger]
            self.ray_met(states.last(), after, (states.len() - 1) as usize, x, y) && after.work
                == end
    }

    /// Fix columns that another one dominates. Candidates for a column are the
    /// columns of its shortest row. Returns how many were fixed, or the columns
    /// along which the objective falls forever: the first rises, the second falls.
    pub fn dominated_columns(
        &self,
        model: &mut Model,
        objective: &mut Objective,
        work_limit: WorkLimit,
    ) -> (r: Result<usize, (usize, usize)>)
        requires
            self.wf(),
            old(model).wf(),
            old(objective).wf(),
            old(objective).c@.len() == old(model).bounds@.len(),
        ensures
            self.dominated_columns_done(
                passes::work(*old(model), *old(objective)),
                passes::work(*final(model), *final(objective)),
                work_limit,
                r,
            ),
    {
        let n: usize = model.bounds.len();
        let taped: usize = model.tape.len();
        let allowance: usize = work_limit.resolve(capped_product(model.a.nnz(), 2));
        let mut scratch = Scratch::new(n);
        let mut left: usize = allowance;
        let ghost mut states: Seq<Contest> = seq![contest(*model, *objective, scratch, left)];
        let ghost mut items: Seq<usize> = Seq::empty();
        let mut k: usize = 0;
        while k < n
            invariant
                self.wf(),
                model.wf(),
                objective.wf(),
                objective.c@.len() == model.bounds@.len(),
                n == model.bounds@.len(),
                n == old(model).bounds@.len(),
                k <= n,
                taped == old(model).tape@.len(),
                taped <= model.tape@.len(),
                scratch@.fits(n as nat),
                passes::walk(self.contest_turns(), states, items),
                states[0] == Self::contest_begins(*old(model), *old(objective), work_limit),
                states.last() == contest(*model, *objective, scratch, left),
                items.len() == k,
                items == Seq::new(k as nat, |k: int| k as usize),
            decreases n - k,
        {
            let ghost before = states.last();
            let (outcome, Ghost(after)) = self.contest_column(
                model,
                objective,
                &mut scratch,
                k,
                left,
            );
            match outcome {
                Err((x, y)) => {
                    proof {
                        assert(self.ray_met(states.last(), after, (states.len() - 1) as usize, x, y));
                        assert(self.ray_ends(
                            states,
                            passes::work(*model, *objective),
                            n as nat,
                            x,
                            y,
                        ));
                    }
                    return Err((x, y));
                },
                Ok(rest) => {
                    left = rest;
                    proof {
                        let next = contest(*model, *objective, scratch, left);
                        assert(self.contest_turn(before, next, k));
                        passes::walk_on(self.contest_turns(), states, items, next, k);
                        states = states.push(next);
                        assert(items.push(k) =~= Seq::new((k + 1) as nat, |k: int| k as usize));
                        items = items.push(k);
                    }
                },
            }
            k = k + 1;
        }
        let fixed: usize = model.tape.len() - taped;
        Ok(fixed)
    }
}

/// A member of a run is compared with this many followers, which keeps a long run
/// of equal supports linear.
pub const MAX_GROUP_NEIGHBOURS: usize = 32;

/// A search with the number of pairs it has examined.
pub ghost struct Rounds {
    pub contest: Contest,
    pub compared: nat,
}

/// The number of followers of a member.
pub open spec fn followers(run: Seq<usize>, at: int) -> nat {
    if run.len() - at - 1 < MAX_GROUP_NEIGHBOURS {
        (run.len() - at - 1) as nat
    } else {
        MAX_GROUP_NEIGHBOURS as nat
    }
}

/// The pairs of a member with its followers.
pub open spec fn member_pairs(run: Seq<usize>, at: int) -> Seq<(usize, usize)> {
    Seq::new(followers(run, at), |t: int| (run[at], run[at + 1 + t]))
}

/// The pairs of the first `n` members of a run.
pub open spec fn run_pairs(run: Seq<usize>, n: nat) -> Seq<(usize, usize)>
    decreases n,
{
    if n == 0 {
        Seq::empty()
    } else {
        run_pairs(run, (n - 1) as nat) + member_pairs(run, n - 1)
    }
}

/// A run of two columns or more, none of them curved.
pub open spec fn flat_run(objective: Objective, run: Seq<usize>) -> bool {
    run.len() >= 2 && forall|a: int|
        0 <= a < run.len() ==> listing::line(
            objective.p@,
            false,
            (#[trigger] run[a]) as int,
        ).len() == 0
}

/// The pairs of the flat ones among the first `n` runs.
pub open spec fn all_pairs(objective: Objective, runs: Seq<Vec<usize>>, n: nat) -> Seq<
    (usize, usize),
>
    decreases n,
{
    if n == 0 {
        Seq::empty()
    } else {
        let before = all_pairs(objective, runs, (n - 1) as nat);
        let run = runs[n - 1]@;
        if flat_run(objective, run) {
            before + run_pairs(run, run.len())
        } else {
            before
        }
    }
}

fn is_flat(objective: &Objective, run: &Vec<usize>) -> (b: bool)
    requires
        objective.wf(),
        forall|a: int| 0 <= a < run@.len() ==> (#[trigger] run@[a]) < objective.c@.len(),
    ensures
        b == flat_run(*objective, run@),
{
    if run.len() < 2 {
        return false;
    }
    let mut a: usize = 0;
    while a < run.len()
        invariant
            a <= run@.len(),
            objective.wf(),
            forall|a: int| 0 <= a < run@.len() ==> (#[trigger] run@[a]) < objective.c@.len(),
            forall|b: int|
                0 <= b < a ==> listing::line(
                    objective.p@,
                    false,
                    (#[trigger] run@[b]) as int,
                ).len() == 0,
        decreases run@.len() - a,
    {
        assert(run@[a as int] < objective.c@.len());
        let row = objective.p.row(run[a]).to_vec();
        proof {
            listing::line_is(row@, objective.p@, false, run@[a as int] as int);
        }
        if row.len() > 0 {
            return false;
        }
        a = a + 1;
    }
    true
}

impl<
    P: Fn(Real, Real) -> Real,
    T: Fn(Real, Real) -> Real,
    D: Fn(Real, Real) -> Real,
    H: Fn(Real, Real) -> Real,
> Arithmetic<P, T, D, H> {
    /// The pair is examined while there is work and both columns are linear.
    pub open spec fn examines(c: Contest, pair: (usize, usize)) -> bool {
        &&& c.left > 0
        &&& direction::linear_column(c.work.model, c.work.objective, pair.0 as int)
        &&& direction::linear_column(c.work.model, c.work.objective, pair.1 as int)
    }

    pub open spec fn round_turn(&self, before: Rounds, after: Rounds, pair: (usize, usize)) -> bool {
        let c = before.contest;
        if Self::examines(c, pair) {
            &&& self.duel_turn(
                Contest { left: (c.left - 1) as nat, ..c },
                after.contest,
                pair.0,
                pair.1,
            )
            &&& after.compared == before.compared + 1
        } else {
            after == before
        }
    }

    pub open spec fn round_turns(&self) -> spec_fn(Rounds, Rounds, (usize, usize)) -> bool {
        |before: Rounds, after: Rounds, pair: (usize, usize)| self.round_turn(before, after, pair)
    }

    /// The pair after those examined shows that the objective falls forever as
    /// `x` rises and `y` falls.
    pub open spec fn round_ends(
        &self,
        last: Rounds,
        pair: (usize, usize),
        x: usize,
        y: usize,
    ) -> bool {
        let c = last.contest;
        &&& Self::examines(c, pair)
        &&& self.pair_plan(
            c.seen,
            c.work.model,
            c.work.objective,
            pair.0,
            pair.1,
            (c.left - 1) as nat,
        ).0 == PairVerdict::Ray(x, y)
    }

    /// Test the pairs inside runs of columns with one support. Returns the number
    /// of comparisons, or the columns along which the objective falls forever.
    pub fn dominated_support_groups(
        &self,
        model: &mut Model,
        objective: &mut Objective,
        runs: &Vec<Vec<usize>>,
        work_limit: WorkLimit,
    ) -> (r: Result<usize, (usize, usize)>)
        requires
            self.wf(),
            old(model).wf(),
            old(objective).wf(),
            old(objective).c@.len() == old(model).bounds@.len(),
            forall|g: int, a: int|
                0 <= g < runs@.len() && 0 <= a < runs@[g]@.len() ==> (#[trigger] runs@[g]@[a])
                    < old(model).bounds@.len(),
        ensures
            final(model).wf(),
            final(objective).wf(),
            final(objective).c@.len() == final(model).bounds@.len(),
            final(model).bounds@.len() == old(model).bounds@.len(),
            exists|states: Seq<Rounds>, items: Seq<(usize, usize)>|
                {
                    let all = all_pairs(*old(objective), runs@, runs@.len());
                    &&& #[trigger] passes::walk(self.round_turns(), states, items)
                    &&& states[0] == Rounds {
                        contest: Self::contest_begins(*old(model), *old(objective), work_limit),
                        compared: 0,
                    }
                    &&& states.last().contest.work == passes::work(
                        *final(model),
                        *final(objective),
                    )
                    &&& items.len() <= all.len()
                    &&& items == all.take(items.len() as int)
                    &&& match r {
                        Ok(compared) => items == all && compared == states.last().compared,
                        Err((x, y)) => items.len() < all.len() && self.round_ends(
                            states.last(),
                            all[items.len() as int],
                            x,
                            y,
                        ),
                    }
                },
    {
        let n: usize = model.bounds.len();
        let allowance: usize = work_limit.resolve(capped_product(model.a.nnz(), 2));
        let mut flat: Vec<bool> = Vec::new();
        let mut g: usize = 0;
        while g < runs.len()
            invariant
                g <= runs@.len(),
                n == model.bounds@.len(),
                objective.wf(),
                objective.c@.len() == n,
                *objective == *old(objective),
                forall|g: int, a: int|
                    0 <= g < runs@.len() && 0 <= a < runs@[g]@.len() ==> (#[trigger] runs@[g]@[a])
                        < n,
                flat@.len() == g,
                forall|h: int| 0 <= h < g ==> #[trigger] flat@[h] == flat_run(*objective, runs@[h]@),
            decreases runs@.len() - g,
        {
            proof {
                assert forall|a: int| 0 <= a < runs@[g as int]@.len() implies (
                #[trigger] runs@[g as int]@[a]) < objective.c@.len() by {}
            }
            flat.push(is_flat(objective, &runs[g]));
            g = g + 1;
        }
        let ghost all = all_pairs(*old(objective), runs@, runs@.len());
        let mut scratch = Scratch::new(n);
        let mut left: usize = allowance;
        let mut compared: usize = 0;
        let ghost mut states: Seq<Rounds> = seq![
            Rounds { contest: contest(*model, *objective, scratch, left), compared: 0 },
        ];
        let ghost mut items: Seq<(usize, usize)> = Seq::empty();
        g = 0;
        while g < runs.len()
            invariant
                self.wf(),
                model.wf(),
                objective.wf(),
                objective.c@.len() == model.bounds@.len(),
                n == model.bounds@.len(),
                n == old(model).bounds@.len(),
                g <= runs@.len(),
                flat@.len() == runs@.len(),
                forall|h: int|
                    0 <= h < runs@.len() ==> #[trigger] flat@[h] == flat_run(
                        *old(objective),
                        runs@[h]@,
                    ),
                forall|g: int, a: int|
                    0 <= g < runs@.len() && 0 <= a < runs@[g]@.len() ==> (#[trigger] runs@[g]@[a])
                        < n,
                compared + left <= allowance,
                self.rounds_stand(
                    states,
                    items,
                    Self::contest_begins(*old(model), *old(objective), work_limit),
                    contest(*model, *objective, scratch, left),
                    compared as nat,
                ),
                scratch@.fits(n as nat),
                all == all_pairs(*old(objective), runs@, runs@.len()),
                items == all_pairs(*old(objective), runs@, g as nat),
            decreases runs@.len() - g,
        {
            let run = &runs[g];
            let ghost done = items;
            if flat[g] {
                let mut at: usize = 0;
                assert(items =~= done + run_pairs(run@, 0));
                while at < run.len()
                    invariant
                        self.wf(),
                        model.wf(),
                        objective.wf(),
                        objective.c@.len() == model.bounds@.len(),
                        n == model.bounds@.len(),
                        n == old(model).bounds@.len(),
                        g < runs@.len(),
                        run@ == runs@[g as int]@,
                        flat_run(*old(objective), run@),
                        at <= run@.len(),
                        forall|a: int| 0 <= a < run@.len() ==> (#[trigger] run@[a]) < n,
                        compared + left <= allowance,
                        self.rounds_stand(
                            states,
                            items,
                            Self::contest_begins(*old(model), *old(objective), work_limit),
                            contest(*model, *objective, scratch, left),
                            compared as nat,
                        ),
                        scratch@.fits(n as nat),
                        all == all_pairs(*old(objective), runs@, runs@.len()),
                        done == all_pairs(*old(objective), runs@, g as nat),
                        items == done + run_pairs(run@, at as nat),
                    decreases run@.len() - at,
                {
                    let ghost before = items;
                    let ghost more = member_pairs(run@, at as int);
                    let count: usize = if run.len() - at - 1 < MAX_GROUP_NEIGHBOURS {
                        run.len() - at - 1
                    } else {
                        MAX_GROUP_NEIGHBOURS
                    };
                    let j: usize = run[at];
                    let mut t: usize = 0;
                    assert(items =~= before + more.take(0));
                    while t < count
                        invariant
                            self.wf(),
                            model.wf(),
                            objective.wf(),
                            objective.c@.len() == model.bounds@.len(),
                            n == model.bounds@.len(),
                            n == old(model).bounds@.len(),
                            g < runs@.len(),
                            run@ == runs@[g as int]@,
                            flat_run(*old(objective), run@),
                            at < run@.len(),
                            j == run@[at as int],
                            count == followers(run@, at as int),
                            t <= count,
                            more == member_pairs(run@, at as int),
                            forall|a: int| 0 <= a < run@.len() ==> (#[trigger] run@[a]) < n,
                            compared + left <= allowance,
                            self.rounds_stand(
                                states,
                                items,
                                Self::contest_begins(*old(model), *old(objective), work_limit),
                                contest(*model, *objective, scratch, left),
                                compared as nat,
                            ),
                            scratch@.fits(n as nat),
                            all == all_pairs(*old(objective), runs@, runs@.len()),
                            done == all_pairs(*old(objective), runs@, g as nat),
                            before == done + run_pairs(run@, at as nat),
                            items == before + more.take(t as int),
                        decreases count - t,
                    {
                        let ghost last = states.last();
                        assert(run.len() == run@.len());
                        let k: usize = run[at + 1 + t];
                        assert(run@[at as int] < n && run@[at + 1 + t] < n);
                        assert(more[t as int] == (j, k));
                        if left > 0 && model.linear_column(objective, j) && model.linear_column(
                            objective,
                            k,
                        ) {
                            match self.dominated_pair(model, objective, &mut scratch, j, k, left - 1) {
                                Err((x, y)) => {
                                    proof {
                                        assert(self.round_ends(last, (j, k), x, y));
                                        prefix_of_all(
                                            *old(objective),
                                            runs@,
                                            g as int,
                                            at as int,
                                            t as int,
                                        );
                                        assert(items =~= all.take(items.len() as int));
                                        assert(all[items.len() as int] == (j, k));
                                    }
                                    return Err((x, y));
                                },
                                Ok((_, rest)) => {
                                    left = rest;
                                    compared = compared + 1;
                                },
                            }
                        }
                        proof {
                            let next = Rounds {
                                contest: contest(*model, *objective, scratch, left),
                                compared: compared as nat,
                            };
                            assert(self.round_turn(last, next, (j, k)));
                            passes::walk_on(self.round_turns(), states, items, next, (j, k));
                            states = states.push(next);
                            items = items.push((j, k));
                            assert(items =~= before + more.take(t + 1));
                        }
                        t = t + 1;
                    }
                    proof {
                        assert(more.take(t as int) =~= more);
                        assert(items =~= done + run_pairs(run@, (at + 1) as nat));
                    }
                    at = at + 1;
                }
            }
            g = g + 1;
        }
        assert(all.take(items.len() as int) =~= all);
        Ok(compared)
    }

    /// The states lead from the beginning of a search to where it stands.
    pub open spec fn rounds_stand(
        &self,
        states: Seq<Rounds>,
        items: Seq<(usize, usize)>,
        begin: Contest,
        now: Contest,
        compared: nat,
    ) -> bool {
        &&& passes::walk(self.round_turns(), states, items)
        &&& states[0] == Rounds { contest: begin, compared: 0 }
        &&& states.last() == Rounds { contest: now, compared }
    }
}

/// The pairs before a pair are the first of all pairs, and it comes next.
proof fn prefix_of_all(objective: Objective, runs: Seq<Vec<usize>>, g: int, at: int, t: int)
    requires
        0 <= g < runs.len(),
        flat_run(objective, runs[g]@),
        0 <= at < runs[g]@.len(),
        0 <= t < followers(runs[g]@, at),
    ensures
        ({
            let run = runs[g]@;
            let all = all_pairs(objective, runs, runs.len());
            let seen = all_pairs(objective, runs, g as nat) + run_pairs(run, at as nat)
                + member_pairs(run, at).take(t);
            &&& seen.len() < all.len()
            &&& seen == all.take(seen.len() as int)
            &&& all[seen.len() as int] == (run[at], run[at + 1 + t])
        }),
{
    let run = runs[g]@;
    let one = all_pairs(objective, runs, g as nat);
    let two = run_pairs(run, at as nat);
    let three = member_pairs(run, at);
    let seen = one + two + three.take(t);
    pairs_grow(run, (at + 1) as nat, run.len());
    let part = run_pairs(run, (at + 1) as nat);
    let whole = run_pairs(run, run.len());
    let upto = all_pairs(objective, runs, (g + 1) as nat);
    all_grow(objective, runs, (g + 1) as nat, runs.len());
    let all = all_pairs(objective, runs, runs.len());
    assert(upto == one + whole);
    assert(part == two + three);
    assert(part =~= whole.take(part.len() as int));
    assert(upto =~= all.take(upto.len() as int));
    assert forall|i: int| 0 <= i < seen.len() implies seen[i] == all[i] by {
        assert(all[i] == upto[i]);
        if i >= one.len() {
            let k = i - one.len();
            assert(upto[i] == whole[k]);
            assert(whole[k] == part[k]);
        }
    }
    let k = two.len() + t;
    assert(part[k] == three[t]);
    assert(whole[k] == part[k]);
    assert(upto[one.len() + k] == whole[k]);
    assert(all[one.len() + k] == upto[one.len() + k]);
    assert(seen =~= all.take(seen.len() as int));
}

proof fn pairs_grow(run: Seq<usize>, m: nat, n: nat)
    requires
        m <= n,
    ensures
        run_pairs(run, m).len() <= run_pairs(run, n).len(),
        run_pairs(run, m) == run_pairs(run, n).take(run_pairs(run, m).len() as int),
    decreases n - m,
{
    if m < n {
        pairs_grow(run, m, (n - 1) as nat);
        let (a, b, c) = (run_pairs(run, m), run_pairs(run, (n - 1) as nat), run_pairs(run, n));
        assert(a =~= c.take(a.len() as int)) by {
            assert forall|i: int| 0 <= i < a.len() implies a[i] == c[i] by {
                assert(a[i] == b.take(a.len() as int)[i]);
            }
        }
    } else {
        assert(run_pairs(run, m) =~= run_pairs(run, n).take(run_pairs(run, m).len() as int));
    }
}

proof fn all_grow(objective: Objective, runs: Seq<Vec<usize>>, m: nat, n: nat)
    requires
        m <= n,
    ensures
        all_pairs(objective, runs, m).len() <= all_pairs(objective, runs, n).len(),
        all_pairs(objective, runs, m) == all_pairs(objective, runs, n).take(
            all_pairs(objective, runs, m).len() as int,
        ),
    decreases n - m,
{
    let (a, c) = (all_pairs(objective, runs, m), all_pairs(objective, runs, n));
    if m < n {
        all_grow(objective, runs, m, (n - 1) as nat);
        let b = all_pairs(objective, runs, (n - 1) as nat);
        assert(a =~= c.take(a.len() as int)) by {
            assert forall|i: int| 0 <= i < a.len() implies a[i] == c[i] by {
                assert(a[i] == b.take(a.len() as int)[i]);
            }
        }
    } else {
        assert(a =~= c.take(a.len() as int));
    }
}

impl<
    P: Fn(Real, Real) -> Real,
    T: Fn(Real, Real) -> Real,
    D: Fn(Real, Real) -> Real,
    H: Fn(Real, Real) -> Real,
> Arithmetic<P, T, D, H> {
    /// What a search for dominated columns does and reports.
    pub open spec fn dominated_columns_done(
        &self,
        before: Work,
        after: Work,
        work_limit: WorkLimit,
        r: Result<usize, (usize, usize)>,
    ) -> bool {
        &&& after.model.wf()
        &&& after.objective.wf()
        &&& after.objective.c@.len() == after.model.bounds@.len()
        &&& after.model.bounds@.len() == before.model.bounds@.len()
        &&& exists|states: Seq<Contest>, items: Seq<usize>|
                {
                    &&& #[trigger] passes::walk(self.contest_turns(), states, items)
                    &&& states[0] == Self::contest_begins(before.model, before.objective, work_limit)
                    &&& items == Seq::new(items.len(), |k: int| k as usize)
                    &&& match r {
                        Ok(fixed) => {
                            &&& items.len() == before.model.bounds@.len()
                            &&& states.last().work == after
                            &&& fixed == after.model.tape@.len() - before.model.tape@.len()
                        },
                        Err((x, y)) => self.ray_ends(
                            states,
                            after,
                            before.model.bounds@.len(),
                            x,
                            y,
                        ),
                    }
                }
    }
}

} // verus!
