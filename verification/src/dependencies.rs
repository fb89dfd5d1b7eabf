//! Linear dependencies among equality rows, found in exact arithmetic.
//!
//! Rows are reduced against a small basis in scratch storage. Only where every
//! product and every difference is exact does a relation count, and the model
//! is not changed before a relation is complete.

use crate::arithmetic::Arithmetic;
use crate::bounds::RowDomain;
use crate::linked::{self, Entries};
use crate::listing;
use crate::model::{self, Model};
use crate::number::{one, zero, Real};
use crate::settings::DependencySettings;
use crate::tape::Rule;
use crate::tape;
use vstd::prelude::*;

verus! {

/// The bit pattern of the least product whose rounding error cannot vanish.
pub const LEAST_PRODUCT: u64 = 0x0370000000000000;

/// What a fused multiplication and addition gives.
pub open spec fn fused<F: Fn(Real, Real, Real) -> Real>(f: F, a: Real, b: Real, c: Real) -> Real {
    choose|r: Real| call_ensures(f, (a, b, c), r)
}

/// A function of its three arguments alone.
pub open spec fn fuses<F: Fn(Real, Real, Real) -> Real>(f: F) -> bool {
    &&& forall|a: Real, b: Real, c: Real| #[trigger] call_requires(f, (a, b, c))
    &&& forall|a: Real, b: Real, c: Real, r: Real, s: Real| #[trigger]
        call_ensures(f, (a, b, c), r) && #[trigger] call_ensures(f, (a, b, c), s) ==> r == s
}

/// A row of the basis, with the rows of the model that it combines.
pub struct BasisRow {
    pub pivot: usize,
    pub value: Real,
    pub entries: Entries,
    pub rhs: Real,
    pub proof: Entries,
}

pub ghost struct Basis {
    pub pivot: usize,
    pub value: Real,
    pub entries: Seq<(usize, Real)>,
    pub rhs: Real,
    pub proof: Seq<(usize, Real)>,
}

impl View for BasisRow {
    type V = Basis;

    open spec fn view(&self) -> Basis {
        Basis {
            pivot: self.pivot,
            value: self.value,
            entries: self.entries@,
            rhs: self.rhs,
            proof: self.proof@,
        }
    }
}

pub open spec fn bases(basis: Seq<BasisRow>) -> Seq<Basis> {
    Seq::new(basis.len(), |k: int| basis[k]@)
}

/// A row that is being reduced.
pub ghost struct Combined {
    pub entries: Seq<(usize, Real)>,
    pub proof: Seq<(usize, Real)>,
    pub rhs: Real,
}

/// How a reduction ended.
#[derive(Clone, Copy, Debug, PartialEq, Eq, Structural)]
pub enum Reduction {
    Complete,
    /// A step was not exact.
    Inexact,
    /// The allowance is used up.
    Exhausted,
}

/// The value at an index.
pub open spec fn at(entries: Seq<(usize, Real)>, j: usize) -> Option<Real>
    decreases entries.len(),
{
    if entries.len() == 0 {
        None
    } else if entries.last().0 == j {
        Some(entries.last().1)
    } else {
        at(entries.drop_last(), j)
    }
}

fn find(entries: &Entries, j: usize) -> (v: Option<Real>)
    ensures
        v == at(entries@, j),
{
    let mut k: usize = entries.len();
    assert(entries@.take(k as int) =~= entries@);
    while k > 0
        invariant
            k <= entries@.len(),
            at(entries@, j) == at(entries@.take(k as int), j),
        decreases k,
    {
        assert(entries@.take(k as int).drop_last() =~= entries@.take(k - 1));
        assert(entries@.take(k as int).last() == entries@[k - 1]);
        k = k - 1;
        if entries[k].0 == j {
            return Some(entries[k].1);
        }
    }
    None
}

/// The binary logarithm, rounded down.
pub open spec fn log2(n: nat) -> nat
    decreases n,
{
    if n <= 1 {
        0
    } else {
        1 + log2(n / 2)
    }
}

fn log2_of(n: usize) -> (r: usize)
    ensures
        r == log2(n as nat),
        r <= n,
    decreases n,
{
    if n <= 1 {
        0
    } else {
        1 + log2_of(n / 2)
    }
}

/// The entry of the largest magnitude, the first such, from place `k` on.
pub open spec fn strongest(entries: Seq<(usize, Real)>, best: (usize, Real), k: int) -> (usize, Real)
    decreases entries.len() - k,
{
    if k >= entries.len() {
        best
    } else {
        strongest(
            entries,
            if best.1.absolute().bits < entries[k].1.absolute().bits {
                entries[k]
            } else {
                best
            },
            k + 1,
        )
    }
}

fn strongest_of(entries: &Entries) -> (best: (usize, Real))
    requires
        entries@.len() > 0,
    ensures
        best == strongest(entries@, entries@[0], 1),
{
    let mut best: (usize, Real) = entries[0];
    let mut k: usize = 1;
    while k < entries.len()
        invariant
            1 <= k <= entries@.len(),
            strongest(entries@, entries@[0], 1) == strongest(entries@, best, k as int),
        decreases entries@.len() - k,
    {
        if best.1.abs().to_bits() < entries[k].1.abs().to_bits() {
            best = entries[k];
        }
        k = k + 1;
    }
    best
}

/// All entries but that of one index, with the opposite sign.
pub open spec fn transferred(proof_entries: Seq<(usize, Real)>, row: usize) -> Seq<(usize, Real)>
    decreases proof_entries.len(),
{
    if proof_entries.len() == 0 {
        Seq::empty()
    } else {
        let before = transferred(proof_entries.drop_last(), row);
        let (j, a) = proof_entries.last();
        if j == row {
            before
        } else {
            before.push((j, a.opposite()))
        }
    }
}

proof fn transferred_stay_within(proof_entries: Seq<(usize, Real)>, row: usize, n: nat)
    requires
        model::in_range(proof_entries, n),
    ensures
        tape::within(transferred(proof_entries, row), n),
    decreases proof_entries.len(),
{
    if proof_entries.len() > 0 {
        let less = proof_entries.drop_last();
        assert forall|k: int| 0 <= k < less.len() implies (#[trigger] less[k]).0 < n by {
            assert(proof_entries[k].0 < n);
        }
        transferred_stay_within(less, row, n);
        assert(proof_entries[proof_entries.len() - 1].0 < n);
    }
}

fn transfer(entries: &Entries, row: usize) -> (out: Entries)
    ensures
        out@ == transferred(entries@, row),
{
    let mut out: Entries = Vec::new();
    let mut k: usize = 0;
    assert(entries@.take(0) =~= Seq::<(usize, Real)>::empty());
    while k < entries.len()
        invariant
            k <= entries@.len(),
            out@ == transferred(entries@.take(k as int), row),
        decreases entries@.len() - k,
    {
        assert(entries@.take(k + 1).drop_last() =~= entries@.take(k as int));
        let (j, a): (usize, Real) = entries[k];
        if j != row {
            out.push((j, a.neg()));
        }
        k = k + 1;
    }
    assert(entries@.take(k as int) =~= entries@);
    out
}

impl<
    P: Fn(Real, Real) -> Real,
    T: Fn(Real, Real) -> Real,
    D: Fn(Real, Real) -> Real,
    H: Fn(Real, Real) -> Real,
> Arithmetic<P, T, D, H> {
    /// The product, where it has no rounding error that could hide.
    pub open spec fn product_exact<F: Fn(Real, Real, Real) -> Real>(&self, a: Real, b: Real, f: F) -> Option<
        Real,
    > {
        let product = self.product(a, b);
        if a.zero() || b.zero() {
            Some(zero())
        } else if product.finite() && (Real { bits: LEAST_PRODUCT }).le(product.absolute())
            && fused(f, a, b, product.opposite()).zero() {
            Some(product)
        } else {
            None
        }
    }

    pub fn exact_product<F: Fn(Real, Real, Real) -> Real>(&self, a: Real, b: Real, f: &F) -> (r:
        Option<Real>)
        requires
            self.wf(),
            fuses(*f),
        ensures
            r == self.product_exact(a, b, *f),
    {
        let product = self.product_of(a, b);
        if a.is_zero() || b.is_zero() {
            return Some(zero());
        }
        let error = f(a, b, product.neg());
        assert(error == fused(*f, a, b, product.opposite()));
        if product.is_finite() && Real::from_bits(LEAST_PRODUCT).at_most(product.abs())
            && error.is_zero() {
            Some(product)
        } else {
            None
        }
    }

    /// The difference, where it has no rounding error.
    pub open spec fn difference_exact(&self, a: Real, b: Real) -> Option<Real> {
        let value = self.difference(a, b);
        let bv = self.difference(a, value);
        let av = self.sum(value, bv);
        let error = self.sum(self.difference(a, av), self.difference(bv, b));
        if value.finite() && bv.finite() && av.finite() && error.zero() {
            Some(value)
        } else {
            None
        }
    }

    pub fn exact_difference(&self, a: Real, b: Real) -> (r: Option<Real>)
        requires
            self.wf(),
        ensures
            r == self.difference_exact(a, b),
    {
        let value = self.difference_of(a, b);
        let bv = self.difference_of(a, value);
        let av = self.sum_of(value, bv);
        let error = self.sum_of(self.difference_of(a, av), self.difference_of(bv, b));
        if value.is_finite() && bv.is_finite() && av.is_finite() && error.is_zero() {
            Some(value)
        } else {
            None
        }
    }

    /// `target - alpha * base`, merged from the places `i` and `j` on.
    pub open spec fn exactly_subtracted<F: Fn(Real, Real, Real) -> Real>(
        &self,
        target: Seq<(usize, Real)>,
        base: Seq<(usize, Real)>,
        alpha: Real,
        f: F,
        out: Seq<(usize, Real)>,
        i: int,
        j: int,
    ) -> Option<Seq<(usize, Real)>>
        decreases target.len() - i + base.len() - j,
    {
        if i < 0 || j < 0 || i > target.len() || j > base.len() || (i == target.len() && j
            == base.len()) {
            Some(out)
        } else {
            let first = j == base.len() || i < target.len() && target[i].0 <= base[j].0;
            let second = i == target.len() || j < base.len() && base[j].0 <= target[i].0;
            let column = if first {
                target[i].0
            } else {
                base[j].0
            };
            let a = if first {
                target[i].1
            } else {
                zero()
            };
            let b = if second {
                base[j].1
            } else {
                zero()
            };
            match self.product_exact(alpha, b, f) {
                None => None,
                Some(scaled) => match self.difference_exact(a, scaled) {
                    None => None,
                    Some(value) => self.exactly_subtracted(
                        target,
                        base,
                        alpha,
                        f,
                        if value.zero() {
                            out
                        } else {
                            out.push((column, value))
                        },
                        if first {
                            i + 1
                        } else {
                            i
                        },
                        if second {
                            j + 1
                        } else {
                            j
                        },
                    ),
                },
            }
        }
    }

    fn subtract_exactly<F: Fn(Real, Real, Real) -> Real>(
        &self,
        target: &Entries,
        base: &Entries,
        alpha: Real,
        f: &F,
        Ghost(limit): Ghost<nat>,
    ) -> (r: Option<Entries>)
        requires
            self.wf(),
            fuses(*f),
            model::in_range(target@, limit),
            model::in_range(base@, limit),
        ensures
            match r {
                Some(out) => self.exactly_subtracted(
                    target@,
                    base@,
                    alpha,
                    *f,
                    Seq::empty(),
                    0,
                    0,
                ) == Some(out@) && model::in_range(out@, limit),
                None => self.exactly_subtracted(
                    target@,
                    base@,
                    alpha,
                    *f,
                    Seq::empty(),
                    0,
                    0,
                ) is None,
            },
    {
        let mut out: Entries = Vec::new();
        assert(out@ =~= Seq::<(usize, Real)>::empty());
        let (mut i, mut j): (usize, usize) = (0, 0);
        while i < target.len() || j < base.len()
            invariant
                i <= target@.len(),
                j <= base@.len(),
                self.wf(),
                fuses(*f),
                model::in_range(target@, limit),
                model::in_range(base@, limit),
                model::in_range(out@, limit),
                self.exactly_subtracted(target@, base@, alpha, *f, Seq::empty(), 0, 0)
                    == self.exactly_subtracted(
                    target@,
                    base@,
                    alpha,
                    *f,
                    out@,
                    i as int,
                    j as int,
                ),
            decreases target@.len() - i + base@.len() - j,
        {
            let first = j == base.len() || i < target.len() && target[i].0 <= base[j].0;
            let second = i == target.len() || j < base.len() && base[j].0 <= target[i].0;
            let column: usize = if first {
                target[i].0
            } else {
                base[j].0
            };
            proof {
                if first {
                    assert(target@[i as int].0 < limit);
                } else {
                    assert(base@[j as int].0 < limit);
                }
            }
            let a = if first {
                target[i].1
            } else {
                zero()
            };
            let b = if second {
                base[j].1
            } else {
                zero()
            };
            let scaled = match self.exact_product(alpha, b, f) {
                Some(v) => v,
                None => {
                    return None;
                },
            };
            let value = match self.exact_difference(a, scaled) {
                Some(v) => v,
                None => {
                    return None;
                },
            };
            if first {
                i = i + 1;
            }
            if second {
                j = j + 1;
            }
            if !value.is_zero() {
                out.push((column, value));
            }
        }
        Some(out)
    }

    /// One step of a reduction, and what is left of the allowance. A reference
    /// whose pivot is absent changes nothing.
    pub open spec fn reduced_by<F: Fn(Real, Real, Real) -> Real>(
        &self,
        c: Combined,
        reference: Basis,
        max_length: nat,
        work: nat,
        f: F,
    ) -> (Combined, nat, Reduction) {
        let search = log2(c.entries.len()) + 1;
        let left = if work > search {
            (work - search) as nat
        } else {
            0
        };
        match at(c.entries, reference.pivot) {
            None => (c, left, Reduction::Complete),
            Some(v) => {
                let alpha = self.quotient(v, reference.value);
                let cost = c.entries.len() + reference.entries.len() + c.proof.len()
                    + reference.proof.len();
                if !alpha.finite() || alpha.zero() {
                    (c, left, Reduction::Inexact)
                } else if cost > left {
                    (c, left, Reduction::Exhausted)
                } else {
                    let rest = (left - cost) as nat;
                    let rhs = match self.product_exact(alpha, reference.rhs, f) {
                        Some(v) => self.difference_exact(c.rhs, v),
                        None => None,
                    };
                    let entries = self.exactly_subtracted(
                        c.entries,
                        reference.entries,
                        alpha,
                        f,
                        Seq::empty(),
                        0,
                        0,
                    );
                    let proof_entries = self.exactly_subtracted(
                        c.proof,
                        reference.proof,
                        alpha,
                        f,
                        Seq::empty(),
                        0,
                        0,
                    );
                    match (rhs, entries, proof_entries) {
                        (Some(r), Some(e), Some(p)) => if e.len() > max_length || at(
                            e,
                            reference.pivot,
                        ) is Some {
                            (c, rest, Reduction::Inexact)
                        } else {
                            (
                                Combined { entries: e, proof: p, rhs: r },
                                rest,
                                Reduction::Complete,
                            )
                        },
                        _ => (c, rest, Reduction::Inexact),
                    }
                }
            },
        }
    }

    /// A row reduced by the basis from place `k` on, until it is empty.
    pub open spec fn reduced_from<F: Fn(Real, Real, Real) -> Real>(
        &self,
        c: Combined,
        basis: Seq<Basis>,
        max_length: nat,
        work: nat,
        f: F,
        k: int,
    ) -> (Combined, nat, Reduction)
        decreases basis.len() - k,
    {
        if k >= basis.len() || c.entries.len() == 0 {
            (c, work, Reduction::Complete)
        } else if work == 0 {
            (c, work, Reduction::Exhausted)
        } else {
            let (next, left, reduction) = self.reduced_by(c, basis[k], max_length, work, f);
            if reduction is Complete {
                self.reduced_from(next, basis, max_length, left, f, k + 1)
            } else {
                (next, left, reduction)
            }
        }
    }

    fn reduce<F: Fn(Real, Real, Real) -> Real, E: Fn() -> bool>(
        &self,
        start: Entries,
        row: usize,
        side: Real,
        basis: &Vec<BasisRow>,
        max_length: usize,
        allowance: usize,
        f: &F,
        expired: &E,
        Ghost(columns): Ghost<nat>,
        Ghost(rows): Ghost<nat>,
    ) -> (r: (Entries, Entries, Real, usize, Reduction))
        requires
            self.wf(),
            fuses(*f),
            call_requires(*expired, ()),
            model::in_range(start@, columns),
            row < rows,
            basis_fits(basis@, columns, rows),
        ensures
            r.4 is Exhausted && call_ensures(*expired, (), true) || self.reduced_from(
                (Combined { entries: start@, proof: seq![(row, one())], rhs: side }),
                bases(basis@),
                max_length as nat,
                allowance as nat,
                *f,
                0,
            ) == ((Combined { entries: r.0@, proof: r.1@, rhs: r.2 }), r.3 as nat, r.4),
            model::in_range(r.0@, columns),
            model::in_range(r.1@, rows),
    {
        let ghost begin = Combined { entries: start@, proof: seq![(row, one())], rhs: side };
        let mut entries = start;
        let mut proof_entries: Entries = Vec::new();
        proof_entries.push((row, one()));
        assert(proof_entries@ =~= begin.proof);
        let mut rhs = side;
        let mut work: usize = allowance;
        let mut k: usize = 0;
        while k < basis.len() && entries.len() > 0
            invariant
                k <= basis@.len(),
                self.wf(),
                fuses(*f),
                call_requires(*expired, ()),
                basis_fits(basis@, columns, rows),
                model::in_range(entries@, columns),
                model::in_range(proof_entries@, rows),
                begin == (Combined { entries: start@, proof: seq![(row, one())], rhs: side }),
                self.reduced_from(
                    begin,
                    bases(basis@),
                    max_length as nat,
                    allowance as nat,
                    *f,
                    0,
                ) == self.reduced_from(
                    (Combined { entries: entries@, proof: proof_entries@, rhs }),
                    bases(basis@),
                    max_length as nat,
                    work as nat,
                    *f,
                    k as int,
                ),
            decreases basis@.len() - k,
        {
            if work == 0 {
                return (entries, proof_entries, rhs, work, Reduction::Exhausted);
            }
            if expired() {
                return (entries, proof_entries, rhs, work, Reduction::Exhausted);
            }
            let reference = &basis[k];
            assert(bases(basis@)[k as int] == basis@[k as int]@);
            assert(entries.len() == entries@.len());
            let search: u128 = log2_of(entries.len()) as u128 + 1;
            work = if work as u128 > search {
                work - search as usize
            } else {
                0
            };
            match find(&entries, reference.pivot) {
                None => {},
                Some(v) => {
                    let alpha = self.quotient_of(v, reference.value);
                    if !alpha.is_finite() || alpha.is_zero() {
                        return (entries, proof_entries, rhs, work, Reduction::Inexact);
                    }
                    let cost: u128 = entries.len() as u128 + reference.entries.len() as u128
                        + proof_entries.len() as u128 + reference.proof.len() as u128;
                    if cost > work as u128 {
                        return (entries, proof_entries, rhs, work, Reduction::Exhausted);
                    }
                    work = work - cost as usize;
                    let side = match self.exact_product(alpha, reference.rhs, f) {
                        Some(v) => self.exact_difference(rhs, v),
                        None => None,
                    };
                    let next = self.subtract_exactly(
                        &entries,
                        &reference.entries,
                        alpha,
                        f,
                        Ghost(columns),
                    );
                    let more = self.subtract_exactly(
                        &proof_entries,
                        &reference.proof,
                        alpha,
                        f,
                        Ghost(rows),
                    );
                    match (side, next, more) {
                        (Some(r), Some(e), Some(p)) => {
                            assert(e.len() == e@.len());
                            if e.len() > max_length || find(&e, reference.pivot).is_some() {
                                return (entries, proof_entries, rhs, work, Reduction::Inexact);
                            }
                            entries = e;
                            proof_entries = p;
                            rhs = r;
                        },
                        _ => {
                            return (entries, proof_entries, rhs, work, Reduction::Inexact);
                        },
                    }
                },
            }
            k = k + 1;
        }
        (entries, proof_entries, rhs, work, Reduction::Complete)
    }

    /// The magnitudes of the combined sides, added up from place `k` on.
    pub open spec fn side_scale(
        &self,
        rows: Seq<RowDomain>,
        proof_entries: Seq<(usize, Real)>,
        sum: Real,
        k: int,
    ) -> Real
        decreases proof_entries.len() - k,
    {
        if k >= proof_entries.len() {
            sum
        } else {
            let (j, a) = proof_entries[k];
            let side = match rows[j as int] {
                RowDomain::Linear(b) => b.lower,
                _ => zero(),
            };
            self.side_scale(
                rows,
                proof_entries,
                self.sum(sum, self.product(a, side).absolute()),
                k + 1,
            )
        }
    }

    fn scale_of(&self, model: &Model, proof_entries: &Entries) -> (sum: Real)
        requires
            self.wf(),
            model::in_range(proof_entries@, model.rows@.len()),
        ensures
            sum == self.side_scale(model.rows@, proof_entries@, zero(), 0),
    {
        let mut sum = zero();
        let mut k: usize = 0;
        while k < proof_entries.len()
            invariant
                k <= proof_entries@.len(),
                self.wf(),
                model::in_range(proof_entries@, model.rows@.len()),
                self.side_scale(model.rows@, proof_entries@, zero(), 0) == self.side_scale(
                    model.rows@,
                    proof_entries@,
                    sum,
                    k as int,
                ),
            decreases proof_entries@.len() - k,
        {
            let (j, a): (usize, Real) = proof_entries[k];
            assert(proof_entries@[k as int].0 < model.rows@.len());
            let side = match model.rows[j] {
                RowDomain::Linear(b) => b.lower,
                _ => zero(),
            };
            sum = self.sum_of(sum, self.product_of(a, side).abs());
            k = k + 1;
        }
        sum
    }

    /// Multipliers that prove the rows contradictory: the combination, with the
    /// sign of what is left of the side.
    pub open spec fn refutes(
        &self,
        y: Seq<(usize, Real)>,
        proof_entries: Seq<(usize, Real)>,
        rhs: Real,
    ) -> bool {
        &&& y.len() == proof_entries.len()
        &&& forall|k: int|
            0 <= k < y.len() ==> #[trigger] y[k] == (
                proof_entries[k].0,
                self.product(rhs.unit(), proof_entries[k].1),
            )
    }

    fn refute(&self, proof_entries: &Entries, rhs: Real) -> (y: Entries)
        requires
            self.wf(),
        ensures
            self.refutes(y@, proof_entries@, rhs),
    {
        let mut y: Entries = Vec::new();
        let unit = rhs.signum();
        let mut k: usize = 0;
        while k < proof_entries.len()
            invariant
                k <= proof_entries@.len(),
                self.wf(),
                unit == rhs.unit(),
                y@.len() == k,
                forall|i: int|
                    0 <= i < k ==> #[trigger] y@[i] == (
                        proof_entries@[i].0,
                        self.product(rhs.unit(), proof_entries@[i].1),
                    ),
            decreases proof_entries@.len() - k,
        {
            y.push((proof_entries[k].0, self.product_of(unit, proof_entries[k].1)));
            k = k + 1;
        }
        y
    }

    /// What one row does.
    pub open spec fn dependency_turn<F: Fn(Real, Real, Real) -> Real>(
        &self,
        before: Search,
        after: Search,
        i: usize,
        options: DependencySettings,
        feasibility: Real,
        f: F,
        finding: Finding,
    ) -> bool {
        let model = before.model;
        let entries = listing::line(model.a@, false, i as int);
        match model.rows@[i as int] {
            RowDomain::Linear(b) if b.is_equality() && 0 < entries.len()
                <= options.max_row_length => if entries.len() > before.work {
                after == before && finding is Stop
            } else {
                let (c, left, reduction) = self.reduced_from(
                    Combined { entries, proof: seq![(i, one())], rhs: b.lower },
                    before.basis,
                    options.max_row_length as nat,
                    (before.work - entries.len()) as nat,
                    f,
                    0,
                );
                let worked = Search { work: left as usize, ..before };
                match reduction {
                    Reduction::Inexact => after == worked && finding is Nothing,
                    Reduction::Exhausted => after == worked && finding is Stop,
                    Reduction::Complete => if c.entries.len() > 0 {
                        let (pivot, value) = strongest(c.entries, c.entries[0], 1);
                        &&& finding is Nothing
                        &&& after.model == before.model
                        &&& after.work == worked.work
                        &&& after.basis == (if before.basis.len() < options.max_basis_rows {
                            before.basis.push(
                                Basis {
                                    pivot,
                                    value,
                                    entries: c.entries,
                                    rhs: c.rhs,
                                    proof: c.proof,
                                },
                            )
                        } else {
                            before.basis
                        })
                    } else if c.rhs.zero() {
                        &&& after.basis == before.basis
                        &&& after.work == worked.work
                        &&& if model.revision == usize::MAX {
                            after.model == model && finding is Nothing
                        } else {
                            finding is Removed && row_dropped(model, after.model, i, c.proof)
                        }
                    } else {
                        &&& after == worked
                        &&& if self.product(
                            feasibility,
                            self.sum(one(), self.side_scale(model.rows@, c.proof, zero(), 0)),
                        ).lt(c.rhs.absolute()) {
                            finding matches Finding::Contradiction(y) && self.refutes(
                                y@,
                                c.proof,
                                c.rhs,
                            )
                        } else {
                            finding is Nothing
                        }
                    },
                }
            },
            _ => after == before && finding is Nothing,
        }
    }

    /// Reduce one row by the basis: drop it where it depends on other rows, and
    /// let it join the basis where it does not.
    pub fn try_dependency<F: Fn(Real, Real, Real) -> Real, E: Fn() -> bool>(
        &self,
        model: &mut Model,
        basis: &mut Vec<BasisRow>,
        i: usize,
        options: DependencySettings,
        feasibility: Real,
        allowance: usize,
        f: &F,
        expired: &E,
    ) -> (r: (Finding, usize))
        requires
            self.wf(),
            old(model).wf(),
            fuses(*f),
            call_requires(*expired, ()),
            i < old(model).rows@.len(),
            basis_fits(old(basis)@, old(model).bounds@.len(), old(model).rows@.len()),
        ensures
            final(model).wf(),
            final(model).bounds@ == old(model).bounds@,
            final(model).rows@.len() == old(model).rows@.len(),
            basis_fits(final(basis)@, final(model).bounds@.len(), final(model).rows@.len()),
            ({
                &&& call_ensures(*expired, (), true)
                &&& r.0 is Stop
                &&& *final(model) == *old(model)
                &&& final(basis)@ == old(basis)@
            }) || self.dependency_turn(
                (Search { model: *old(model), basis: bases(old(basis)@), work: allowance }),
                (Search { model: *final(model), basis: bases(final(basis)@), work: r.1 }),
                i,
                options,
                feasibility,
                *f,
                r.0,
            ),
    {
        let ghost (m, known) = (*model, basis@);
        let side = match model.rows[i] {
            RowDomain::Linear(b) => {
                if !b.equality() {
                    return (Finding::Nothing, allowance);
                }
                b.lower
            },
            _ => {
                return (Finding::Nothing, allowance);
            },
        };
        let entries = model.row_entries(i);
        assert(entries.len() == entries@.len());
        if entries.len() == 0 || entries.len() > options.max_row_length {
            return (Finding::Nothing, allowance);
        }
        if entries.len() > allowance {
            return (Finding::Stop, allowance);
        }
        let (left, proof_entries, rhs, work, reduction): (
            Entries,
            Entries,
            Real,
            usize,
            Reduction,
        ) = {
            let paid: usize = allowance - entries.len();
            self.reduce(
                entries,
                i,
                side,
                basis,
                options.max_row_length,
                paid,
                f,
                expired,
                Ghost(model.bounds@.len()),
                Ghost(model.rows@.len()),
            )
        };
        match reduction {
            Reduction::Inexact => {
                return (Finding::Nothing, work);
            },
            Reduction::Exhausted => {
                return (Finding::Stop, work);
            },
            Reduction::Complete => {},
        }
        if left.len() > 0 {
            if basis.len() < options.max_basis_rows {
                let (pivot, value): (usize, Real) = strongest_of(&left);
                basis.push(BasisRow { pivot, value, entries: left, rhs, proof: proof_entries });
                proof {
                    assert(bases(basis@) =~= bases(known).push(
                        Basis { pivot, value, entries: left@, rhs, proof: proof_entries@ },
                    ));
                }
            }
            return (Finding::Nothing, work);
        }
        if rhs.is_zero() {
            if model.revision == usize::MAX {
                return (Finding::Nothing, work);
            }
            proof {
                model.a.stored_count_fits();
            }
            let coefficients = transfer(&proof_entries, i);
            proof {
                transferred_stay_within(proof_entries@, i, model.rows@.len());
            }
            model.clear_row(i);
            model.tape.push(Rule::DependentRow { row: i, coefficients });
            proof {
                assert(model.tape@.drop_last() =~= m.tape@);
            }
            return (Finding::Removed, work);
        }
        let scale = self.scale_of(model, &proof_entries);
        if self.product_of(feasibility, self.sum_of(one(), scale)).less(rhs.abs()) {
            (Finding::Contradiction(self.refute(&proof_entries, rhs)), work)
        } else {
            (Finding::Nothing, work)
        }
    }

    /// The turns over the candidates, until one stops the search.
    pub open spec fn dependency_pass<F: Fn(Real, Real, Real) -> Real>(
        &self,
        searches: Seq<Search>,
        findings: Seq<Finding>,
        candidates: Seq<usize>,
        options: DependencySettings,
        feasibility: Real,
        f: F,
    ) -> bool {
        &&& searches.len() == findings.len() + 1
        &&& findings.len() <= candidates.len()
        &&& forall|k: int|
            0 <= k < findings.len() ==> #[trigger] self.dependency_turn_at(
                searches,
                findings,
                candidates,
                options,
                feasibility,
                f,
                k,
            )
    }

    pub open spec fn dependency_turn_at<F: Fn(Real, Real, Real) -> Real>(
        &self,
        searches: Seq<Search>,
        findings: Seq<Finding>,
        candidates: Seq<usize>,
        options: DependencySettings,
        feasibility: Real,
        f: F,
        k: int,
    ) -> bool {
        &&& searches[k].work > 0
        &&& self.dependency_turn(
            searches[k],
            searches[k + 1],
            candidates[k],
            options,
            feasibility,
            f,
            findings[k],
        )
    }

    /// A pass goes on by one turn.
    proof fn pass_goes_on<F: Fn(Real, Real, Real) -> Real>(
        &self,
        searches: Seq<Search>,
        findings: Seq<Finding>,
        candidates: Seq<usize>,
        options: DependencySettings,
        feasibility: Real,
        f: F,
        next: Search,
        finding: Finding,
    )
        requires
            self.dependency_pass(searches, findings, candidates, options, feasibility, f),
            findings.len() < candidates.len(),
            searches.last().work > 0,
            self.dependency_turn(
                searches.last(),
                next,
                candidates[findings.len() as int],
                options,
                feasibility,
                f,
                finding,
            ),
        ensures
            self.dependency_pass(
                searches.push(next),
                findings.push(finding),
                candidates,
                options,
                feasibility,
                f,
            ),
    {
        let more = findings.push(finding);
        let later = searches.push(next);
        assert forall|i: int| 0 <= i < more.len() implies #[trigger] self.dependency_turn_at(
            later,
            more,
            candidates,
            options,
            feasibility,
            f,
            i,
        ) by {
            if i < findings.len() {
                assert(self.dependency_turn_at(
                    searches,
                    findings,
                    candidates,
                    options,
                    feasibility,
                    f,
                    i,
                ));
                assert(later[i] == searches[i] && later[i + 1] == searches[i + 1] && more[i]
                    == findings[i]);
            } else {
                assert(later[i] == searches.last());
            }
        }
    }

    /// Drop the equalities among the candidates that depend on others. The number
    /// of rows dropped, or multipliers that prove a contradiction.
    pub fn drop_dependent<F: Fn(Real, Real, Real) -> Real, E: Fn() -> bool>(
        &self,
        model: &mut Model,
        candidates: &Vec<usize>,
        options: DependencySettings,
        feasibility: Real,
        allowance: usize,
        f: &F,
        expired: &E,
    ) -> (r: Result<usize, Entries>)
        requires
            self.wf(),
            old(model).wf(),
            fuses(*f),
            call_requires(*expired, ()),
            forall|k: int|
                0 <= k < candidates@.len() ==> #[trigger] candidates@[k] < old(model).rows@.len(),
        ensures
            final(model).wf(),
            final(model).bounds@ == old(model).bounds@,
            exists|searches: Seq<Search>, findings: Seq<Finding>|
                {
                    &&& #[trigger] self.dependency_pass(
                        searches,
                        findings,
                        candidates@,
                        options,
                        feasibility,
                        *f,
                    )
                    &&& searches[0] == (Search {
                        model: *old(model),
                        basis: Seq::empty(),
                        work: allowance,
                    })
                    &&& searches.last().model == *final(model)
                    &&& match r {
                        Ok(count) => count == dropped(findings) && (findings.len()
                            == candidates@.len() || searches.last().work == 0 || findings.len()
                            > 0 && findings.last() is Stop || call_ensures(*expired, (), true)),
                        Err(y) => findings.len() > 0 && findings.last()
                            == Finding::Contradiction(y),
                    }
                },
    {
        let mut basis: Vec<BasisRow> = Vec::new();
        let mut work: usize = allowance;
        let mut count: usize = 0;
        let ghost mut searches: Seq<Search> = seq![
            Search { model: *model, basis: Seq::empty(), work },
        ];
        let ghost mut findings: Seq<Finding> = Seq::empty();
        assert(bases(basis@) =~= Seq::<Basis>::empty());
        let mut k: usize = 0;
        while k < candidates.len() && work > 0
            invariant
                k <= candidates@.len(),
                self.wf(),
                model.wf(),
                fuses(*f),
                call_requires(*expired, ()),
                model.bounds@ == old(model).bounds@,
                model.rows@.len() == old(model).rows@.len(),
                forall|k: int|
                    0 <= k < candidates@.len() ==> #[trigger] candidates@[k]
                        < model.rows@.len(),
                basis_fits(basis@, model.bounds@.len(), model.rows@.len()),
                count <= k,
                findings.len() == k,
                count == dropped(findings),
                self.dependency_pass(
                    searches,
                    findings,
                    candidates@,
                    options,
                    feasibility,
                    *f,
                ),
                searches.len() == k + 1,
                searches[0] == (Search {
                    model: *old(model),
                    basis: Seq::empty(),
                    work: allowance,
                }),
                searches.last() == (Search { model: *model, basis: bases(basis@), work }),
            decreases candidates@.len() - k,
        {
            if expired() {
                return Ok(count);
            }
            assert(candidates@[k as int] < model.rows@.len());
            let (finding, left): (Finding, usize) = self.try_dependency(
                model,
                &mut basis,
                candidates[k],
                options,
                feasibility,
                work,
                f,
                expired,
            );
            let ghost shown = self.dependency_turn(
                searches.last(),
                Search { model: *model, basis: bases(basis@), work: left },
                candidates@[k as int],
                options,
                feasibility,
                *f,
                finding,
            );
            work = left;
            if let Finding::Stop = finding {
                proof {
                    if shown {
                        self.pass_goes_on(
                            searches,
                            findings,
                            candidates@,
                            options,
                            feasibility,
                            *f,
                            Search { model: *model, basis: bases(basis@), work },
                            finding,
                        );
                        assert(findings.push(finding).drop_last() =~= findings);
                    }
                }
                return Ok(count);
            }
            proof {
                let more = findings.push(finding);
                let later = searches.push(
                    Search { model: *model, basis: bases(basis@), work },
                );
                assert(more.drop_last() =~= findings);
                self.pass_goes_on(
                    searches,
                    findings,
                    candidates@,
                    options,
                    feasibility,
                    *f,
                    Search { model: *model, basis: bases(basis@), work },
                    finding,
                );
                findings = more;
                searches = later;
            }
            k = k + 1;
            match finding {
                Finding::Nothing => {},
                Finding::Removed => {
                    count = count + 1;
                },
                Finding::Stop => {},
                Finding::Contradiction(y) => {
                    return Err(y);
                },
            }
        }
        Ok(count)
    }
}

/// What the look at one row found.
#[derive(Clone, Debug)]
pub enum Finding {
    Nothing,
    /// The row depends on others and is gone.
    Removed,
    /// The allowance is used up.
    Stop,
    /// Multipliers of rows that contradict each other.
    Contradiction(Entries),
}

pub ghost struct Search {
    pub model: Model,
    pub basis: Seq<Basis>,
    pub work: usize,
}

pub open spec fn basis_fits(basis: Seq<BasisRow>, columns: nat, rows: nat) -> bool {
    forall|k: int|
        0 <= k < basis.len() ==> model::in_range((#[trigger] basis[k]).entries@, columns)
            && model::in_range(basis[k].proof@, rows)
}

/// A dependent row is gone, and its multiplier can be handed to the others.
pub open spec fn row_dropped(
    before: Model,
    after: Model,
    row: usize,
    proof_entries: Seq<(usize, Real)>,
) -> bool {
    &&& linked::row_replaced(after.a@, before.a@, row as int, Seq::empty())
    &&& after.rows@ == before.rows@.update(row as int, RowDomain::Deleted)
    &&& after.bounds@ == before.bounds@
    &&& after.alive@ == before.alive@
    &&& after.tape@.len() == before.tape@.len() + 1
    &&& after.tape@.drop_last() == before.tape@
    &&& after.tape@.last() matches Rule::DependentRow { row: r, coefficients } && r == row
        && coefficients@ == transferred(proof_entries, row)
}

pub open spec fn dropped(findings: Seq<Finding>) -> nat
    decreases findings.len(),
{
    if findings.len() == 0 {
        0
    } else {
        dropped(findings.drop_last()) + if findings.last() is Removed {
            1nat
        } else {
            0
        }
    }
}

} // verus!
