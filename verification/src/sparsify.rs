//! Cancelling entries of one row with a multiple of another.
//!
//! A reference row that shares most of its entries with other rows, up to one
//! factor, is subtracted from them. A reference that is no equality first gets a
//! variable of its own for its activity.

use crate::arithmetic::Arithmetic;
use crate::batch::{self, RowUpdate};
use crate::bounds::{Bounds, RowDomain};
use crate::eliminate::{self, NewRow, REMAINDER};
use crate::linked::{self, Entries, NONE};
use crate::listing;
use crate::model::{self, Model};
use crate::number::{infinity, minus_one, zero, Real};
use crate::objective::Objective;
use crate::tape::Rule;
use crate::tape;
use vstd::prelude::*;

verus! {

/// Bit patterns of ten, of ten thousand, of a millionth, and of a ten-trillionth.
pub const TEN: u64 = 0x4024000000000000;

pub const TEN_THOUSAND: u64 = 0x40c3880000000000;

pub const MILLIONTH: u64 = 0x3eb0c6f7a0b5ed8d;

pub const LEAST_ENTRY: u64 = 0x3d3c25c268497682;

/// A count that stays within a machine word.
pub open spec fn capped(n: int) -> int {
    if n > usize::MAX {
        usize::MAX as int
    } else {
        n
    }
}

/// Whether cancelling `count` of `length` entries is worth a rewrite: at least
/// three quarters of a long row, or half of it and ten more of a short one.
pub open spec fn cancels_enough(length: usize, count: usize) -> bool {
    let required = if length < 20 {
        10int
    } else {
        (length / 2) as int
    };
    capped(2 * count) >= capped(length + required)
}

pub fn worth_cancelling(length: usize, count: usize) -> (b: bool)
    ensures
        b == cancels_enough(length, count),
{
    let required: u128 = if length < 20 {
        10
    } else {
        (length / 2) as u128
    };
    let twice: u128 = 2 * (count as u128);
    let sum: u128 = length as u128 + required;
    let limit: u128 = usize::MAX as u128;
    let left: u128 = if twice > limit {
        limit
    } else {
        twice
    };
    let right: u128 = if sum > limit {
        limit
    } else {
        sum
    };
    left >= right
}

/// The packed rows that a domain takes.
pub open spec fn sides(b: Bounds) -> nat {
    if b.is_equality() {
        1
    } else {
        (if b.lower.finite() {
            1nat
        } else {
            0
        }) + (if b.upper.finite() {
            1nat
        } else {
            0
        })
    }
}

/// The largest magnitude, from place `k` on.
pub open spec fn largest(entries: Seq<(usize, Real)>, m: Real, k: int) -> Real
    decreases entries.len() - k,
{
    if k >= entries.len() {
        m
    } else {
        largest(entries, m.larger(entries[k].1.absolute()), k + 1)
    }
}

pub(crate) fn largest_of(entries: &Entries) -> (m: Real)
    ensures
        m == largest(entries@, zero(), 0),
{
    let mut m = zero();
    let mut k: usize = 0;
    while k < entries.len()
        invariant
            k <= entries@.len(),
            largest(entries@, zero(), 0) == largest(entries@, m, k as int),
        decreases entries@.len() - k,
    {
        m = m.max(entries[k].1.abs());
        k = k + 1;
    }
    m
}

/// The smallest magnitude, from place `k` on.
pub open spec fn smallest(entries: Seq<(usize, Real)>, m: Real, k: int) -> Real
    decreases entries.len() - k,
{
    if k >= entries.len() {
        m
    } else {
        smallest(entries, m.smaller(entries[k].1.absolute()), k + 1)
    }
}

fn smallest_of(entries: &Entries) -> (m: Real)
    ensures
        m == smallest(entries@, infinity(), 0),
{
    let mut m = infinity();
    let mut k: usize = 0;
    while k < entries.len()
        invariant
            k <= entries@.len(),
            smallest(entries@, infinity(), 0) == smallest(entries@, m, k as int),
        decreases entries@.len() - k,
    {
        m = m.min(entries[k].1.abs());
        k = k + 1;
    }
    m
}

/// Which rows share entries with the reference, at which ratio and how often.
pub struct Tally {
    /// The reference for which the row was last met.
    pub seen: Vec<usize>,
    pub ratios: Vec<Real>,
    pub counts: Vec<usize>,
    pub candidates: Vec<usize>,
    pub work: u128,
}

pub ghost struct Counts {
    pub seen: Seq<usize>,
    pub ratios: Seq<Real>,
    pub counts: Seq<usize>,
    pub candidates: Seq<usize>,
    pub work: u128,
}

impl View for Tally {
    type V = Counts;

    open spec fn view(&self) -> Counts {
        Counts {
            seen: self.seen@,
            ratios: self.ratios@,
            counts: self.counts@,
            candidates: self.candidates@,
            work: self.work,
        }
    }
}

impl Tally {
    pub open spec fn fits(&self, rows: nat) -> bool {
        &&& self.seen@.len() == rows
        &&& self.ratios@.len() == rows
        &&& self.counts@.len() == rows
        &&& forall|k: int|
            0 <= k < self.candidates@.len() ==> #[trigger] self.candidates@[k] < rows
    }
}

impl Tally {
    /// The candidates are distinct linear rows besides the reference.
    pub open spec fn collects(&self, rows: Seq<RowDomain>, reference: usize) -> bool {
        &&& self.candidates@.no_duplicates()
        &&& forall|k: int|
            0 <= k < self.candidates@.len() ==> {
                let i = #[trigger] self.candidates@[k];
                i != reference && rows[i as int] is Linear && self.seen@[i as int] == reference
            }
    }
}

/// The rows that are to be rewritten, and what that saves.
pub ghost struct Harvest {
    pub rows: Seq<NewRow>,
    pub targets: Seq<(usize, Real)>,
    pub saving: int,
    pub work: u128,
}

impl<
    P: Fn(Real, Real) -> Real,
    T: Fn(Real, Real) -> Real,
    D: Fn(Real, Real) -> Real,
    H: Fn(Real, Real) -> Real,
> Arithmetic<P, T, D, H> {
    /// `other - alpha * base`, merged from the places `p` and `q` on, with the
    /// largest new magnitude. A sum that is lost in rounding refuses all.
    pub open spec fn subtracted(
        &self,
        base: Seq<(usize, Real)>,
        other: Seq<(usize, Real)>,
        alpha: Real,
        out: Seq<(usize, Real)>,
        high: Real,
        p: int,
        q: int,
    ) -> Option<(Seq<(usize, Real)>, Real)>
        decreases base.len() - p + other.len() - q,
    {
        if p < 0 || q < 0 || p > base.len() || q > other.len() || (p == base.len() && q
            == other.len()) {
            Some((out, high))
        } else {
            let first = q == other.len() || p < base.len() && base[p].0 <= other[q].0;
            let second = p == base.len() || q < other.len() && other[q].0 <= base[p].0;
            let column = if first {
                base[p].0
            } else {
                other[q].0
            };
            let b = if first {
                base[p].1
            } else {
                zero()
            };
            let a = if second {
                other[q].1
            } else {
                zero()
            };
            let scaled = self.product(alpha, b);
            let v = self.difference(a, scaled);
            let (np, nq) = (
                if first {
                    p + 1
                } else {
                    p
                },
                if second {
                    q + 1
                } else {
                    q
                },
            );
            if self.wiped(v, a, scaled, Real { bits: REMAINDER }) {
                None
            } else if v.zero() {
                self.subtracted(base, other, alpha, out, high, np, nq)
            } else {
                self.subtracted(
                    base,
                    other,
                    alpha,
                    out.push((column, v)),
                    high.larger(v.absolute()),
                    np,
                    nq,
                )
            }
        }
    }

    /// `other - alpha * base`, unless it is lost in rounding or grows tenfold.
    pub open spec fn difference_row(
        &self,
        base: Seq<(usize, Real)>,
        other: Seq<(usize, Real)>,
        alpha: Real,
    ) -> Option<Seq<(usize, Real)>> {
        match self.subtracted(base, other, alpha, Seq::empty(), zero(), 0, 0) {
            None => None,
            Some((out, high)) => if high.le(
                self.product(Real { bits: TEN }, largest(other, zero(), 0)),
            ) {
                Some(out)
            } else {
                None
            },
        }
    }

    /// `other - alpha * base` over increasing columns.
    pub fn subtract(&self, base: &Entries, other: &Entries, alpha: Real) -> (r: Option<Entries>)
        requires
            self.wf(),
            linked::sorted_entries(base@, (usize::MAX + 1) as nat),
            linked::sorted_entries(other@, (usize::MAX + 1) as nat),
        ensures
            match r {
                Some(out) => self.difference_row(base@, other@, alpha) == Some(out@),
                None => self.difference_row(base@, other@, alpha) is None,
            },
    {
        self.subtract_within(base, other, alpha, Ghost((usize::MAX + 1) as nat))
    }

    fn subtract_within(
        &self,
        base: &Entries,
        other: &Entries,
        alpha: Real,
        Ghost(limit): Ghost<nat>,
    ) -> (r: Option<Entries>)
        requires
            self.wf(),
            linked::sorted_entries(base@, limit),
            linked::sorted_entries(other@, limit),
        ensures
            match r {
                Some(out) => self.difference_row(base@, other@, alpha) == Some(out@)
                    && linked::sorted_entries(out@, limit),
                None => self.difference_row(base@, other@, alpha) is None,
            },
    {
        let mut out: Entries = Vec::new();
        let mut high = zero();
        let old = largest_of(other);
        let (mut p, mut q): (usize, usize) = (0, 0);
        assert(out@ =~= Seq::<(usize, Real)>::empty());
        while p < base.len() || q < other.len()
            invariant
                p <= base@.len(),
                q <= other@.len(),
                self.wf(),
                linked::sorted_entries(base@, limit),
                linked::sorted_entries(other@, limit),
                linked::sorted_entries(out@, limit),
                forall|a: int, b: int|
                    0 <= a < out@.len() && p <= b < base@.len() ==> (#[trigger] out@[a]).0 < (
                    #[trigger] base@[b]).0,
                forall|a: int, b: int|
                    0 <= a < out@.len() && q <= b < other@.len() ==> (#[trigger] out@[a]).0 < (
                    #[trigger] other@[b]).0,
                self.subtracted(base@, other@, alpha, Seq::empty(), zero(), 0, 0)
                    == self.subtracted(base@, other@, alpha, out@, high, p as int, q as int),
            decreases base@.len() - p + other@.len() - q,
        {
            let first = q == other.len() || p < base.len() && base[p].0 <= other[q].0;
            let second = p == base.len() || q < other.len() && other[q].0 <= base[p].0;
            let column: usize = if first {
                base[p].0
            } else {
                other[q].0
            };
            proof {
                if first {
                    assert(base@[p as int].0 < limit);
                } else {
                    assert(other@[q as int].0 < limit);
                }
            }
            let b = if first {
                base[p].1
            } else {
                zero()
            };
            let a = if second {
                other[q].1
            } else {
                zero()
            };
            let scaled = self.product_of(alpha, b);
            let v = self.difference_of(a, scaled);
            if self.wipes(v, a, scaled, Real::from_bits(REMAINDER)) {
                return None;
            }
            if first {
                p = p + 1;
            }
            if second {
                q = q + 1;
            }
            if !v.is_zero() {
                out.push((column, v));
                high = high.max(v.abs());
            }
        }
        if high.at_most(self.product_of(Real::from_bits(TEN), old)) {
            Some(out)
        } else {
            None
        }
    }

    /// One more ratio of a row to the reference.
    pub open spec fn ratio_met(&self, c: Counts, reference: usize, i: usize, ratio: Real, least: Real) -> Counts {
        let r = i as int;
        let met = if c.seen[r] == reference {
            c
        } else {
            Counts {
                seen: c.seen.update(r, reference),
                ratios: c.ratios.update(r, zero()),
                counts: c.counts.update(r, 0),
                candidates: c.candidates.push(i),
                work: c.work,
            }
        };
        if !ratio.finite() {
            met
        } else if met.counts[r] == 0 {
            Counts {
                ratios: met.ratios.update(
                    r,
                    if least.lt(ratio.absolute()) && ratio.absolute().lt(
                        Real { bits: TEN_THOUSAND },
                    ) {
                        ratio
                    } else {
                        zero()
                    },
                ),
                counts: met.counts.update(r, 1),
                ..met
            }
        } else if ratio.absolute().le(least) {
            Counts {
                ratios: met.ratios.update(r, zero()),
                counts: met.counts.update(r, 0),
                ..met
            }
        } else if self.difference(ratio, met.ratios[r]).absolute().lt(Real { bits: REMAINDER }) {
            Counts {
                counts: met.counts.update(r, capped(met.counts[r] + 1) as usize),
                ..met
            }
        } else if ratio.absolute().lt(met.ratios[r].absolute()) {
            Counts {
                ratios: met.ratios.update(r, ratio),
                counts: met.counts.update(r, 1),
                ..met
            }
        } else {
            met
        }
    }

    /// The rows of one column, from place `k` on, until the allowance is used up.
    pub open spec fn column_scanned(
        &self,
        rows: Seq<RowDomain>,
        entries: Seq<(usize, Real)>,
        c: Counts,
        reference: usize,
        value: Real,
        least: Real,
        limit: usize,
        k: int,
    ) -> (Counts, bool)
        decreases entries.len() - k,
    {
        if k >= entries.len() {
            (c, true)
        } else if c.work >= limit {
            (c, false)
        } else {
            let (i, other) = entries[k];
            let paid = Counts { work: (c.work + 1) as u128, ..c };
            self.column_scanned(
                rows,
                entries,
                if i == reference || !(rows[i as int] is Linear) {
                    paid
                } else {
                    self.ratio_met(paid, reference, i, self.quotient(other, value), least)
                },
                reference,
                value,
                least,
                limit,
                k + 1,
            )
        }
    }

    /// The columns of the reference, from place `k` on.
    pub open spec fn scanned(
        &self,
        model: Model,
        base: Seq<(usize, Real)>,
        c: Counts,
        reference: usize,
        least: Real,
        limit: usize,
        k: int,
    ) -> Counts
        decreases base.len() - k,
    {
        if k >= base.len() {
            c
        } else {
            let (j, value) = base[k];
            let (next, going) = self.column_scanned(
                model.rows@,
                listing::line(model.a@, true, j as int),
                Counts { work: (c.work + 1) as u128, ..c },
                reference,
                value,
                least,
                limit,
                0,
            );
            if going {
                self.scanned(model, base, next, reference, least, limit, k + 1)
            } else {
                next
            }
        }
    }

    fn meet_ratio(
        &self,
        tally: &mut Tally,
        reference: usize,
        i: usize,
        ratio: Real,
        least: Real,
        Ghost(rows): Ghost<Seq<RowDomain>>,
    )
        requires
            self.wf(),
            old(tally).fits(rows.len()),
            old(tally).collects(rows, reference),
            i < rows.len(),
            i != reference,
            rows[i as int] is Linear,
        ensures
            final(tally).fits(rows.len()),
            final(tally).collects(rows, reference),
            final(tally).work == old(tally).work,
            final(tally)@ == self.ratio_met(old(tally)@, reference, i, ratio, least),
    {
        if tally.seen[i] != reference {
            tally.seen.set(i, reference);
            tally.ratios.set(i, zero());
            tally.counts.set(i, 0);
            tally.candidates.push(i);
        }
        if !ratio.is_finite() {
            return;
        }
        let size = ratio.abs();
        let held = tally.ratios[i];
        let count: usize = tally.counts[i];
        if count == 0 {
            if least.less(size) && size.less(Real::from_bits(TEN_THOUSAND)) {
                tally.ratios.set(i, ratio);
            } else {
                tally.ratios.set(i, zero());
            }
            tally.counts.set(i, 1);
        } else if size.at_most(least) {
            tally.ratios.set(i, zero());
            tally.counts.set(i, 0);
        } else if self.difference_of(ratio, held).abs().less(Real::from_bits(REMAINDER)) {
            if count < usize::MAX {
                tally.counts.set(i, count + 1);
            } else {
                tally.counts.set(i, usize::MAX);
            }
        } else if size.less(held.abs()) {
            tally.ratios.set(i, ratio);
            tally.counts.set(i, 1);
        }
    }

    fn scan(
        &self,
        model: &Model,
        base: &Entries,
        tally: &mut Tally,
        reference: usize,
        least: Real,
        limit: usize,
    )
        requires
            self.wf(),
            model.wf(),
            model::in_range(base@, model.bounds@.len()),
            old(tally).fits(model.rows@.len()),
            old(tally).collects(model.rows@, reference),
            old(tally).work < limit,
        ensures
            final(tally).fits(model.rows@.len()),
            final(tally).collects(model.rows@, reference),
            final(tally)@ == self.scanned(
                *model,
                base@,
                old(tally)@,
                reference,
                least,
                limit,
                0,
            ),
            final(tally).work <= limit + base@.len(),
    {
        let ghost start = tally@;
        assert(base.len() == base@.len());
        let mut k: usize = 0;
        while k < base.len()
            invariant
                k <= base@.len() <= usize::MAX,
                tally.collects(model.rows@, reference),
                self.wf(),
                model.wf(),
                start == old(tally)@,
                model::in_range(base@, model.bounds@.len()),
                tally.fits(model.rows@.len()),
                tally.work <= limit + k,
                self.scanned(*model, base@, start, reference, least, limit, 0) == self.scanned(
                    *model,
                    base@,
                    tally@,
                    reference,
                    least,
                    limit,
                    k as int,
                ),
            decreases base@.len() - k,
        {
            let (j, value): (usize, Real) = base[k];
            assert(base@[k as int].0 < model.bounds@.len());
            let entries = model.column_entries(j);
            tally.work = tally.work + 1;
            let ghost paid = tally@;
            let mut e: usize = 0;
            while e < entries.len()
                invariant
                    e <= entries@.len(),
                    self.wf(),
                    tally.collects(model.rows@, reference),
                    start == old(tally)@,
                    model::in_range(entries@, model.rows@.len()),
                    entries@ == listing::line(model.a@, true, j as int),
                    tally.fits(model.rows@.len()),
                    tally.work <= limit + k + 1,
                    k < base@.len() <= usize::MAX,
                    base@[k as int] == (j, value),
                    self.scanned(*model, base@, start, reference, least, limit, 0)
                        == self.scanned(
                        *model,
                        base@,
                        (Counts { work: (paid.work - 1) as u128, ..paid }),
                        reference,
                        least,
                        limit,
                        k as int,
                    ),
                    paid.work > 0,
                    self.column_scanned(
                        model.rows@,
                        entries@,
                        paid,
                        reference,
                        value,
                        least,
                        limit,
                        0,
                    ) == self.column_scanned(
                        model.rows@,
                        entries@,
                        tally@,
                        reference,
                        value,
                        least,
                        limit,
                        e as int,
                    ),
                decreases entries@.len() - e,
            {
                if tally.work >= limit as u128 {
                    return;
                }
                tally.work = tally.work + 1;
                let (i, other): (usize, Real) = entries[e];
                assert(entries@[e as int].0 < model.rows@.len());
                let linear = match model.rows[i] {
                    RowDomain::Linear(_) => true,
                    _ => false,
                };
                if i != reference && linear {
                    let ratio = self.quotient_of(other, value);
                    self.meet_ratio(tally, reference, i, ratio, least, Ghost(model.rows@));
                }
                e = e + 1;
            }
            k = k + 1;
        }
    }

    /// What one candidate gives: its new row with the sides that it saves.
    pub open spec fn rewritten_row(
        &self,
        model: Model,
        base: Seq<(usize, Real)>,
        bounds: Bounds,
        i: usize,
        alpha: Real,
    ) -> Option<NewRow> {
        let row = listing::line(model.a@, false, i as int);
        match self.difference_row(base, row, alpha) {
            None => None,
            Some(out) => if bounds.is_equality() {
                match self.domain_shifted(
                    model.rows@[i as int],
                    self.product(alpha, bounds.lower),
                ) {
                    Some(domain) if out.len() < row.len() => Some((i, out, domain)),
                    _ => None,
                }
            } else if alpha.zero() || self.product(
                Real { bits: TEN },
                largest(row, zero(), 0),
            ).lt(alpha.absolute()) || out.len() + 1 >= row.len() {
                None
            } else {
                Some(
                    (
                        i,
                        out.push((model.bounds@.len() as usize, alpha)),
                        model.rows@[i as int],
                    ),
                )
            },
        }
    }

    /// The candidates from place `k` on.
    pub open spec fn harvested(
        &self,
        model: Model,
        base: Seq<(usize, Real)>,
        bounds: Bounds,
        c: Counts,
        limit: usize,
        h: Harvest,
        k: int,
    ) -> Harvest
        decreases c.candidates.len() - k,
    {
        if k >= c.candidates.len() {
            h
        } else {
            let i = c.candidates[k];
            let row = listing::line(model.a@, false, i as int);
            let length = capped(
                base.len() + if bounds.is_equality() {
                    0int
                } else {
                    1
                },
            ) as usize;
            let cost = 3 * (base.len() + row.len() + 1);
            if !cancels_enough(length, c.counts[i as int]) || h.work + cost > limit {
                self.harvested(model, base, bounds, c, limit, h, k + 1)
            } else {
                let paid = Harvest { work: (h.work + cost) as u128, ..h };
                let alpha = c.ratios[i as int];
                self.harvested(
                    model,
                    base,
                    bounds,
                    c,
                    limit,
                    match self.rewritten_row(model, base, bounds, i, alpha) {
                        None => paid,
                        Some(new) => Harvest {
                            rows: h.rows.push(new),
                            targets: h.targets.push((i, alpha)),
                            saving: h.saving + (match model.rows@[i as int] {
                                RowDomain::Linear(b) => sides(b),
                                _ => 0,
                            }) * (row.len() - new.1.len()),
                            work: paid.work,
                        },
                    },
                    k + 1,
                )
            }
        }
    }

    fn rewrite_candidate(
        &self,
        model: &Model,
        base: &Entries,
        bounds: Bounds,
        row: &Entries,
        i: usize,
        alpha: Real,
    ) -> (r: Option<(Entries, RowDomain)>)
        requires
            self.wf(),
            model.wf(),
            linked::sorted_entries(base@, model.a.column_count()),
            linked::sorted_entries(row@, model.a.column_count()),
            row@ == listing::line(model.a@, false, i as int),
            i < model.rows@.len(),
            model.rows@[i as int] is Linear,
        ensures
            match r {
                Some((out, domain)) => {
                    &&& self.rewritten_row(*model, base@, bounds, i, alpha) == Some(
                        (i, out@, domain),
                    )
                    &&& domain is Linear
                    &&& out@.len() < row@.len()
                    &&& bounds.is_equality() ==> linked::sorted_entries(
                        out@,
                        model.a.column_count(),
                    )
                    &&& !bounds.is_equality() ==> linked::sorted_entries(
                        out@,
                        model.a.column_count() + 1,
                    )
                },
                None => self.rewritten_row(*model, base@, bounds, i, alpha) is None,
            },
    {
        let mut out = match self.subtract_within(base, row, alpha, Ghost(model.a.column_count())) {
            Some(out) => out,
            None => {
                return None;
            },
        };
        if bounds.equality() {
            match self.shifted(model.rows[i], self.product_of(alpha, bounds.lower)) {
                Some(domain) => {
                    if out.len() < row.len() {
                        Some((out, domain))
                    } else {
                        None
                    }
                },
                None => None,
            }
        } else {
            assert(row.len() == row@.len() && out.len() == out@.len());
            if alpha.is_zero() || self.product_of(Real::from_bits(TEN), largest_of(row)).less(
                alpha.abs(),
            ) || out.len() >= row.len() || out.len() + 1 >= row.len() {
                return None;
            }
            proof {
                model.a.counts_fit();
            }
            out.push((model.bounds.len(), alpha));
            Some((out, model.rows[i]))
        }
    }

    /// Rewrite the candidates that are worth it.
    fn harvest(
        &self,
        model: &Model,
        base: &Entries,
        bounds: Bounds,
        tally: &Tally,
        limit: usize,
        reference: usize,
    ) -> (r: (Vec<RowUpdate>, Entries, i128, u128))
        requires
            self.wf(),
            model.wf(),
            linked::sorted_entries(base@, model.a.column_count()),
            tally.fits(model.rows@.len()),
            tally.collects(model.rows@, reference),
            tally.work <= limit + base@.len(),
        ensures
            ({
                let h = self.harvested(
                    *model,
                    base@,
                    bounds,
                    tally@,
                    limit,
                    (Harvest {
                        rows: Seq::empty(),
                        targets: Seq::empty(),
                        saving: 0,
                        work: tally.work,
                    }),
                    0,
                );
                &&& eliminate::new_rows(r.0@) == h.rows
                &&& r.1@ == h.targets
                &&& r.2 == h.saving
                &&& r.3 == h.work
            }),
            0 <= r.2 <= r.3 <= limit + base@.len(),
            r.0@.len() == r.1@.len(),
            forall|u: int|
                0 <= u < r.0@.len() ==> {
                    &&& (#[trigger] r.0@[u]).0 < model.rows@.len()
                    &&& r.0@[u].0 != reference
                    &&& r.0@[u].2 is Linear
                    &&& r.1@[u].0 == r.0@[u].0
                    &&& bounds.is_equality() ==> linked::sorted_entries(
                        r.0@[u].1@,
                        model.a.column_count(),
                    )
                    &&& !bounds.is_equality() ==> linked::sorted_entries(
                        r.0@[u].1@,
                        model.a.column_count() + 1,
                    )
                },
            forall|u: int, v: int|
                0 <= u < v < r.0@.len() ==> (#[trigger] r.0@[u]).0 != (#[trigger] r.0@[v]).0,
    {
        let mut updates: Vec<RowUpdate> = Vec::new();
        let mut targets: Entries = Vec::new();
        let mut saving: i128 = 0;
        let mut work: u128 = tally.work;
        let ghost start = Harvest {
            rows: Seq::empty(),
            targets: Seq::empty(),
            saving: 0,
            work: tally.work,
        };
        let ghost places: Seq<int> = Seq::empty();
        proof {
            assert(eliminate::new_rows(updates@) =~= start.rows);
            assert(targets@ =~= start.targets);
            assert(base.len() == base@.len());
        }
        let auxiliary: usize = if bounds.equality() {
            0
        } else {
            1
        };
        let length: usize = if base.len() > usize::MAX - auxiliary {
            usize::MAX
        } else {
            base.len() + auxiliary
        };
        let mut k: usize = 0;
        while k < tally.candidates.len()
            invariant
                k <= tally.candidates@.len(),
                self.wf(),
                model.wf(),
                linked::sorted_entries(base@, model.a.column_count()),
                tally.fits(model.rows@.len()),
                tally.collects(model.rows@, reference),
                base@.len() <= usize::MAX,
                length == capped(
                    base@.len() + if bounds.is_equality() {
                        0int
                    } else {
                        1
                    },
                ),
                0 <= saving <= work <= limit + base@.len(),
                updates@.len() == targets@.len(),
                start == (Harvest {
                    rows: Seq::empty(),
                    targets: Seq::empty(),
                    saving: 0,
                    work: tally.work,
                }),
                forall|u: int|
                    0 <= u < updates@.len() ==> {
                        &&& (#[trigger] updates@[u]).0 < model.rows@.len()
                        &&& updates@[u].0 != reference
                        &&& updates@[u].2 is Linear
                        &&& targets@[u].0 == updates@[u].0
                        &&& listed_before(tally.candidates@, k as int, updates@[u].0)
                        &&& bounds.is_equality() ==> linked::sorted_entries(
                            updates@[u].1@,
                            model.a.column_count(),
                        )
                        &&& !bounds.is_equality() ==> linked::sorted_entries(
                            updates@[u].1@,
                            model.a.column_count() + 1,
                        )
                    },
                forall|u: int, v: int|
                    0 <= u < v < updates@.len() ==> (#[trigger] updates@[u]).0 != (
                    #[trigger] updates@[v]).0,
                self.harvested(*model, base@, bounds, tally@, limit, start, 0) == self.harvested(
                    *model,
                    base@,
                    bounds,
                    tally@,
                    limit,
                    (Harvest {
                        rows: eliminate::new_rows(updates@),
                        targets: targets@,
                        saving: saving as int,
                        work,
                    }),
                    k as int,
                ),
            decreases tally.candidates@.len() - k,
        {
            let i: usize = tally.candidates[k];
            assert(tally.candidates@[k as int] < model.rows@.len());
            let row = model.row_entries(i);
            assert(row.len() == row@.len());
            let cost: u128 = 3 * (base.len() as u128 + row.len() as u128 + 1);
            proof {
                assert forall|u: int| 0 <= u < updates@.len() implies (#[trigger] updates@[u]).0
                    != i && listed_before(tally.candidates@, k + 1, updates@[u].0) by {
                    assert(listed_before(tally.candidates@, k as int, updates@[u].0));
                    let t = choose|t: int|
                        0 <= t < k && #[trigger] tally.candidates@[t] == updates@[u].0;
                    assert(tally.candidates@[t] == updates@[u].0);
                }
                assert(listed_before(tally.candidates@, k + 1, i)) by {
                    assert(tally.candidates@[k as int] == i);
                }
            }
            if worth_cancelling(length, tally.counts[i]) && work + cost <= limit as u128 {
                let alpha = tally.ratios[i];
                work = work + cost;
                match self.rewrite_candidate(model, base, bounds, &row, i, alpha) {
                    Some((out, domain)) => {
                        let count: usize = match model.rows[i] {
                            RowDomain::Linear(b) => b.packed_sides(),
                            _ => 0,
                        };
                        let fewer: usize = row.len() - out.len();
                        proof {
                            assert(count <= 2);
                            assert(count * fewer <= 2 * fewer) by (nonlinear_arith)
                                requires
                                    count <= 2,
                                    0 <= fewer,
                            ;
                            assert(0 <= count * fewer) by (nonlinear_arith)
                                requires
                                    0 <= count,
                                    0 <= fewer,
                            ;
                        }
                        saving = saving + (count as i128) * (fewer as i128);
                        let ghost before = updates@;
                        updates.push((i, out, domain));
                        targets.push((i, alpha));
                        assert(eliminate::new_rows(updates@) =~= eliminate::new_rows(before).push(
                            (i, out@, domain),
                        ));
                    },
                    None => {},
                }
            }
            k = k + 1;
        }
        (updates, targets, saving, work)
    }
}

/// One of the first `n` candidates is row `i`.
pub open spec fn listed_before(candidates: Seq<usize>, n: int, i: usize) -> bool {
    exists|t: int| 0 <= t < n && #[trigger] candidates[t] == i
}

/// A row that can serve as a reference: linear, with a side, with ten entries or
/// more, none of them tiny.
pub open spec fn reference_of(model: Model, i: int) -> Option<Bounds> {
    let base = listing::line(model.a@, false, i);
    match model.rows@[i] {
        RowDomain::Linear(b) => if base.len() < 10 || sides(b) == 0 || smallest(
            base,
            infinity(),
            0,
        ).lt(Real { bits: LEAST_ENTRY }) {
            None
        } else {
            Some(b)
        },
        _ => None,
    }
}

/// What a pass over the references carries along.
pub ghost struct Pass {
    pub model: Model,
    pub objective: Objective,
    pub counts: Counts,
}

/// The entries saved in all, the reference included.
pub open spec fn total_saving(saving: int, bounds: Bounds, length: nat) -> int {
    if bounds.is_equality() {
        saving
    } else {
        saving + sides(bounds) * length - (length + 1 + sides(bounds))
    }
}

/// The rows that change: the targets, and a reference that gets a variable.
pub open spec fn changed_rows(
    rows: Seq<NewRow>,
    reference: usize,
    base: Seq<(usize, Real)>,
    bounds: Bounds,
    variable: usize,
) -> Seq<NewRow> {
    if bounds.is_equality() {
        rows
    } else {
        rows.push(
            (
                reference,
                base.push((variable, minus_one())),
                RowDomain::Linear(Bounds::fixed(zero())),
            ),
        )
    }
}

/// The storage or the counters cannot take the rewrite.
pub open spec fn rewrite_overflows(before: Pass, bounds: Bounds, rows: Seq<NewRow>) -> bool {
    ||| before.model.a@.dom().len() + eliminate::entry_total(rows) > NONE
    ||| before.model.revision + rows.len() + 1 > usize::MAX
    ||| !bounds.is_equality() && (before.model.bounds@.len() + 1 >= NONE
        || before.objective.p.edits() >= usize::MAX)
}

/// The rewrite is done and recorded.
pub open spec fn rewrite_applied(
    before: Pass,
    after: Pass,
    reference: usize,
    base: Seq<(usize, Real)>,
    bounds: Bounds,
    rows: Seq<NewRow>,
    targets: Seq<(usize, Real)>,
) -> bool {
    let (old, new) = (before.model, after.model);
    &&& after.objective.p@ == before.objective.p@
    &&& after.objective.constant == before.objective.constant
    &&& if bounds.is_equality() {
        &&& after.objective.c@ == before.objective.c@
        &&& new.bounds@ == old.bounds@
        &&& new.alive@ == old.alive@
    } else {
        &&& after.objective.c@ == before.objective.c@.push(zero())
        &&& new.bounds@ == old.bounds@.push(bounds)
        &&& new.alive@ == old.alive@.push(true)
    }
    &&& new.tape@.len() == old.tape@.len() + 1
    &&& new.tape@.drop_last() == old.tape@
    &&& new.tape@.last() matches Rule::RowCombination { reference: r, targets: t, activity }
        && r == reference && t@ == targets && match activity {
        None => bounds.is_equality(),
        Some((j, terms)) => !bounds.is_equality() && j == old.bounds@.len() && terms@ == base,
    }
    &&& exists|updates: Seq<RowUpdate>|
        {
            &&& eliminate::new_rows(updates) == rows
            &&& #[trigger] batch::updated_matrix(new.a@, old.a@, updates)
            &&& new.rows@ == batch::updated_domains(old.rows@, updates, updates.len())
        }
}

/// The finite sides of the bounds of the live columns before column `n`.
pub open spec fn bound_sides(model: Model, n: nat) -> nat
    decreases n,
{
    if n == 0 {
        0
    } else {
        bound_sides(model, (n - 1) as nat) + if model.alive@[n - 1] {
            sides(model.bounds@[n - 1])
        } else {
            0
        }
    }
}

/// The entries that a pass may visit: eight for each stored one and each bound.
pub open spec fn visits_allowed(model: Model) -> usize {
    let n = capped(
        capped((model.a@.dom().len() + bound_sides(model, model.bounds@.len())) as int) * 8,
    );
    if n < 1024 {
        1024
    } else {
        n as usize
    }
}

fn allowance(model: &Model) -> (limit: usize)
    requires
        model.wf(),
    ensures
        limit == visits_allowed(*model),
{
    let mut count: u128 = 0;
    let mut j: usize = 0;
    assert(model.bounds.len() == model.bounds@.len());
    while j < model.bounds.len()
        invariant
            j <= model.bounds@.len() <= usize::MAX,
            model.wf(),
            count <= 2 * j,
            count == bound_sides(*model, j as nat),
        decreases model.bounds@.len() - j,
    {
        if model.alive[j] {
            count = count + model.bounds[j].packed_sides() as u128;
        }
        j = j + 1;
    }
    let top: u128 = usize::MAX as u128;
    let stored: u128 = model.a.nnz() as u128 + count;
    let base: u128 = if stored > top {
        top
    } else {
        stored
    };
    let scaled: u128 = if base * 8 > top {
        top
    } else {
        base * 8
    };
    if scaled < 1024 {
        1024
    } else {
        scaled as usize
    }
}

impl<
    P: Fn(Real, Real) -> Real,
    T: Fn(Real, Real) -> Real,
    D: Fn(Real, Real) -> Real,
    H: Fn(Real, Real) -> Real,
> Arithmetic<P, T, D, H> {
    /// What one reference does.
    pub open spec fn reference_turn(
        &self,
        before: Pass,
        after: Pass,
        reference: usize,
        limit: usize,
        grouped: bool,
    ) -> bool {
        let model = before.model;
        let base = listing::line(model.a@, false, reference as int);
        let unchanged = after.model == before.model && after.objective == before.objective;
        match reference_of(model, reference as int) {
            None => after == before && !grouped,
            Some(bounds) => {
                let least = self.quotient(
                    Real { bits: REMAINDER },
                    smallest(base, infinity(), 0),
                ).larger(Real { bits: MILLIONTH });
                let c = self.scanned(
                    model,
                    base,
                    Counts { candidates: Seq::empty(), ..before.counts },
                    reference,
                    least,
                    limit,
                    0,
                );
                let h = self.harvested(
                    model,
                    base,
                    bounds,
                    c,
                    limit,
                    Harvest {
                        rows: Seq::empty(),
                        targets: Seq::empty(),
                        saving: 0,
                        work: c.work,
                    },
                    0,
                );
                let rows = changed_rows(
                    h.rows,
                    reference,
                    base,
                    bounds,
                    model.bounds@.len() as usize,
                );
                &&& after.counts == (Counts { work: h.work, ..c })
                &&& if h.targets.len() == 0 || total_saving(h.saving, bounds, base.len()) <= 0 {
                    unchanged && !grouped
                } else if grouped {
                    rewrite_applied(before, after, reference, base, bounds, rows, h.targets)
                } else {
                    unchanged && rewrite_overflows(before, bounds, rows)
                }
            },
        }
    }

    fn apply_rewrite(
        &self,
        model: &mut Model,
        objective: &mut Objective,
        reference: usize,
        base: Entries,
        bounds: Bounds,
        rewritten: Vec<RowUpdate>,
        targets: Entries,
        Ghost(counts): Ghost<Counts>,
    ) -> (done: bool)
        requires
            old(model).wf(),
            old(objective).wf(),
            old(objective).c@.len() == old(model).bounds@.len(),
            reference < old(model).rows@.len(),
            linked::sorted_entries(base@, old(model).a.column_count()),
            tape::within(targets@, old(model).rows@.len()),
            forall|u: int|
                0 <= u < rewritten@.len() ==> {
                    &&& (#[trigger] rewritten@[u]).0 < old(model).rows@.len()
                    &&& rewritten@[u].0 != reference
                    &&& rewritten@[u].2 is Linear
                    &&& bounds.is_equality() ==> linked::sorted_entries(
                        rewritten@[u].1@,
                        old(model).a.column_count(),
                    )
                    &&& !bounds.is_equality() ==> linked::sorted_entries(
                        rewritten@[u].1@,
                        old(model).a.column_count() + 1,
                    )
                },
            forall|u: int, v: int|
                0 <= u < v < rewritten@.len() ==> (#[trigger] rewritten@[u]).0 != (
                #[trigger] rewritten@[v]).0,
        ensures
            final(model).wf(),
            final(objective).wf(),
            final(objective).c@.len() == final(model).bounds@.len(),
            final(model).rows@.len() == old(model).rows@.len(),
            ({
                let before = Pass { model: *old(model), objective: *old(objective), counts };
                let after = Pass { model: *final(model), objective: *final(objective), counts };
                let rows = changed_rows(
                    eliminate::new_rows(rewritten@),
                    reference,
                    base@,
                    bounds,
                    old(model).bounds@.len() as usize,
                );
                &&& done == !rewrite_overflows(before, bounds, rows)
                &&& done ==> rewrite_applied(
                    before,
                    after,
                    reference,
                    base@,
                    bounds,
                    rows,
                    targets@,
                )
                &&& !done ==> after == before
            }),
    {
        let ghost (m, o) = (*model, *objective);
        let ghost rows = changed_rows(
            eliminate::new_rows(rewritten@),
            reference,
            base@,
            bounds,
            m.bounds@.len() as usize,
        );
        let ghost start = rewritten@;
        let equality = bounds.equality();
        let n: usize = model.bounds.len();
        let mut updates = rewritten;
        let terms = batch::copy_entries(&base);
        if !equality {
            let mut equation = base;
            equation.push((n, minus_one()));
            updates.push((reference, equation, RowDomain::Linear(Bounds::fixed(zero()))));
            assert(eliminate::new_rows(updates@) =~= rows);
        }
        assert(eliminate::new_rows(updates@) =~= rows);
        let total: u128 = eliminate::count_entries(&updates);
        proof {
            eliminate::totals_agree(updates@);
            assert(updates.len() == updates@.len());
        }
        if total > NONE as u128 || model.a.nnz() as u128 + total > NONE as u128 {
            return false;
        }
        if model.revision as u128 + updates.len() as u128 + 1 > usize::MAX as u128 {
            return false;
        }
        if !equality {
            if n as u128 + 1 >= NONE as u128 || objective.p.revision() == usize::MAX {
                return false;
            }
            let column: usize = model.add_variable(bounds);
            let variable: usize = objective.p.add_variable();
            objective.c.push(zero());
            assert(model.a.column_count() == n + 1);
        }
        let activity: Option<(usize, Entries)> = if equality {
            None
        } else {
            Some((n, terms))
        };
        assert(tape::within(terms@, model.bounds@.len()));
        let ghost combination = Rule::RowCombination { reference, targets, activity };
        model.tape.push(Rule::RowCombination { reference, targets, activity });
        let ghost between = *model;
        proof {
            assert forall|u: int| 0 <= u < updates@.len() implies {
                &&& (#[trigger] updates@[u]).0 < model.rows@.len()
                &&& linked::sorted_entries(updates@[u].1@, model.a.column_count())
                &&& updates@[u].2 is Deleted ==> updates@[u].1@.len() == 0
                &&& updates@[u].2 matches RowDomain::Cone { block, .. } ==> block < usize::MAX
            } by {
                if u < start.len() {
                    assert(updates@[u] == start[u]);
                }
            }
            assert forall|u: int, v: int| 0 <= u < v < updates@.len() implies (
            #[trigger] updates@[u]).0 != (#[trigger] updates@[v]).0 by {
                assert(updates@[u] == start[u]);
                if v < start.len() {
                    assert(updates@[v] == start[v]);
                }
            }
        }
        let touched = model.replace_rows_batch(&updates);
        proof {
            batch::domains_length(m.rows@, updates@, updates@.len());
            assert(model.tape@ == between.tape@);
            assert(between.tape@.last() == combination);
            assert(model.tape@.drop_last() =~= m.tape@);
            assert(batch::updated_matrix(model.a@, m.a@, updates@));
        }
        true
    }

    /// Use one row as the reference.
    pub fn sparsify_reference(
        &self,
        model: &mut Model,
        objective: &mut Objective,
        tally: &mut Tally,
        reference: usize,
        limit: usize,
    ) -> (grouped: bool)
        requires
            self.wf(),
            old(model).wf(),
            old(objective).wf(),
            old(objective).c@.len() == old(model).bounds@.len(),
            reference < old(model).rows@.len(),
            old(tally).fits(old(model).rows@.len()),
            old(tally).work < limit,
        ensures
            final(model).wf(),
            final(objective).wf(),
            final(objective).c@.len() == final(model).bounds@.len(),
            final(model).rows@.len() == old(model).rows@.len(),
            final(tally).fits(final(model).rows@.len()),
            self.reference_turn(
                (Pass { model: *old(model), objective: *old(objective), counts: old(tally)@ }),
                (Pass {
                    model: *final(model),
                    objective: *final(objective),
                    counts: final(tally)@,
                }),
                reference,
                limit,
                grouped,
            ),
    {
        let bounds = match model.rows[reference] {
            RowDomain::Linear(b) => b,
            _ => {
                return false;
            },
        };
        let base = model.row_entries(reference);
        assert(base.len() == base@.len());
        if base.len() < 10 || bounds.packed_sides() == 0 {
            return false;
        }
        let minimum = smallest_of(&base);
        if minimum.less(Real::from_bits(LEAST_ENTRY)) {
            return false;
        }
        let least = self.quotient_of(Real::from_bits(REMAINDER), minimum).max(
            Real::from_bits(MILLIONTH),
        );
        let ghost counts = tally@;
        tally.candidates.clear();
        assert(tally@ == (Counts { candidates: Seq::empty(), ..counts }));
        self.scan(model, &base, tally, reference, least, limit);
        let ghost scanned = tally@;
        let (updates, targets, saving, work): (Vec<RowUpdate>, Entries, i128, u128) = self.harvest(
            model,
            &base,
            bounds,
            tally,
            limit,
            reference,
        );
        tally.work = work;
        assert(tally@ == (Counts { work, ..scanned }));
        if targets.len() == 0 {
            return false;
        }
        let mut total: i128 = saving;
        if !bounds.equality() {
            let count: i128 = bounds.packed_sides() as i128;
            let length: i128 = base.len() as i128;
            proof {
                assert(0 <= count * length <= 2 * length) by (nonlinear_arith)
                    requires
                        0 <= count <= 2,
                        0 <= length,
                ;
            }
            total = saving + count * length - (length + 1 + count);
        }
        assert(total == total_saving(saving as int, bounds, base@.len()));
        if total <= 0 {
            return false;
        }
        proof {
            assert forall|k: int| 0 <= k < targets@.len() implies (#[trigger] targets@[k]).0
                < model.rows@.len() by {
                assert(updates@[k].0 < model.rows@.len());
            }
        }
        self.apply_rewrite(
            model,
            objective,
            reference,
            base,
            bounds,
            updates,
            targets,
            Ghost(tally@),
        )
    }

    /// A pass: the rows serve as references in turn, until the allowance is used up.
    pub open spec fn reference_pass(
        &self,
        passes: Seq<Pass>,
        grouped: Seq<bool>,
        limit: usize,
    ) -> bool {
        &&& passes.len() == grouped.len() + 1
        &&& forall|k: int|
            0 <= k < grouped.len() ==> #[trigger] self.reference_turn_at(passes, grouped, limit, k)
    }

    pub open spec fn reference_turn_at(
        &self,
        passes: Seq<Pass>,
        grouped: Seq<bool>,
        limit: usize,
        k: int,
    ) -> bool {
        &&& passes[k].counts.work < limit
        &&& self.reference_turn(passes[k], passes[k + 1], k as usize, limit, grouped[k])
    }

    /// Cancel entries with every reference in turn. The number of references used.
    pub fn sparsify_rows<E: Fn() -> bool>(
        &self,
        model: &mut Model,
        objective: &mut Objective,
        expired: &E,
    ) -> (groups: usize)
        requires
            self.wf(),
            old(model).wf(),
            old(objective).wf(),
            old(objective).c@.len() == old(model).bounds@.len(),
            call_requires(*expired, ()),
        ensures
            final(model).wf(),
            final(objective).wf(),
            final(objective).c@.len() == final(model).bounds@.len(),
            exists|passes: Seq<Pass>, grouped: Seq<bool>|
                {
                    &&& #[trigger] self.reference_pass(
                        passes,
                        grouped,
                        visits_allowed(*old(model)),
                    )
                    &&& passes[0] == (Pass {
                        model: *old(model),
                        objective: *old(objective),
                        counts: no_counts(old(model).rows@.len()),
                    })
                    &&& passes.last().model == *final(model)
                    &&& passes.last().objective == *final(objective)
                    &&& groups == how_many(grouped)
                    &&& grouped.len() == old(model).rows@.len() || passes.last().counts.work
                        >= visits_allowed(*old(model)) || call_ensures(*expired, (), true)
                },
    {
        let m: usize = model.rows.len();
        let limit: usize = allowance(model);
        let mut tally = Tally {
            seen: vec![usize::MAX; m],
            ratios: vec![zero(); m],
            counts: vec![0usize; m],
            candidates: Vec::new(),
            work: 0,
        };
        proof {
            let none = no_counts(m as nat);
            assert(tally@.seen =~= none.seen && tally@.ratios =~= none.ratios && tally@.counts
                =~= none.counts && tally@.candidates =~= none.candidates);
            assert(tally@ == none);
        }
        let ghost mut passes: Seq<Pass> = seq![
            Pass { model: *model, objective: *objective, counts: tally@ },
        ];
        let ghost mut grouped: Seq<bool> = Seq::empty();
        let mut groups: usize = 0;
        let mut k: usize = 0;
        while k < m && tally.work < limit as u128
            invariant
                k <= m == model.rows@.len() == old(model).rows@.len(),
                limit == visits_allowed(*old(model)),
                self.wf(),
                model.wf(),
                objective.wf(),
                objective.c@.len() == model.bounds@.len(),
                tally.fits(m as nat),
                call_requires(*expired, ()),
                grouped.len() == k,
                groups <= k,
                groups == how_many(grouped),
                self.reference_pass(passes, grouped, limit),
                passes[0] == (Pass {
                    model: *old(model),
                    objective: *old(objective),
                    counts: no_counts(old(model).rows@.len()),
                }),
                passes.last() == (Pass { model: *model, objective: *objective, counts: tally@ }),
            decreases m - k,
        {
            if k % 64 == 0 && expired() {
                return groups;
            }
            let done = self.sparsify_reference(model, objective, &mut tally, k, limit);
            proof {
                let more = grouped.push(done);
                let later = passes.push(
                    Pass { model: *model, objective: *objective, counts: tally@ },
                );
                assert(more.drop_last() =~= grouped);
                assert forall|i: int| 0 <= i < more.len() implies #[trigger] self.reference_turn_at(
                    later,
                    more,
                    limit,
                    i,
                ) by {
                    if i < grouped.len() {
                        assert(self.reference_turn_at(passes, grouped, limit, i));
                        assert(later[i] == passes[i] && later[i + 1] == passes[i + 1] && more[i]
                            == grouped[i]);
                    } else {
                        assert(later[i] == passes.last());
                    }
                }
                grouped = more;
                passes = later;
            }
            if done {
                groups = groups + 1;
            }
            k = k + 1;
        }
        groups
    }
}

/// No row was met.
pub open spec fn no_counts(rows: nat) -> Counts {
    Counts {
        seen: Seq::new(rows, |i: int| usize::MAX),
        ratios: Seq::new(rows, |i: int| zero()),
        counts: Seq::new(rows, |i: int| 0),
        candidates: Seq::empty(),
        work: 0,
    }
}

pub open spec fn how_many(flags: Seq<bool>) -> nat
    decreases flags.len(),
{
    if flags.len() == 0 {
        0
    } else {
        how_many(flags.drop_last()) + if flags.last() {
            1nat
        } else {
            0
        }
    }
}

} // verus!
