//! Intervals of the extended real line and the domains of rows.

use crate::number::{infinity, neg_infinity, zero, Real};
use vstd::prelude::*;

verus! {

/// A closed interval; an infinite side is absent.
#[derive(Clone, Copy, Debug, PartialEq, Eq, Structural)]
pub struct Bounds {
    pub lower: Real,
    pub upper: Real,
}

/// One side of an interval.
#[derive(Clone, Copy, Debug, PartialEq, Eq, Structural)]
pub enum Side {
    Lower,
    Upper,
}

impl Bounds {
    /// No side is present.
    #[verifier::allow_in_spec]
    pub fn free() -> Bounds
        returns
            (Bounds { lower: neg_infinity(), upper: infinity() }),
    {
        Bounds { lower: neg_infinity(), upper: infinity() }
    }

    #[verifier::allow_in_spec]
    pub fn fixed(value: Real) -> Bounds
        returns
            (Bounds { lower: value, upper: value }),
    {
        Bounds { lower: value, upper: value }
    }

    pub open spec fn is_equality(self) -> bool {
        self.lower.finite() && self.lower.same(self.upper)
    }

    /// Whether the interval is one finite point.
    pub fn equality(self) -> (b: bool)
        ensures
            b == self.is_equality(),
    {
        self.lower.is_finite() && self.lower.equals(self.upper)
    }

    pub open spec fn holds(self, x: Real) -> bool {
        self.lower.le(x) && x.le(self.upper)
    }

    pub fn contains(self, x: Real) -> (b: bool)
        ensures
            b == self.holds(x),
    {
        self.lower.at_most(x) && x.at_most(self.upper)
    }

    pub open spec fn recessed(self) -> Bounds {
        Bounds {
            lower: if self.lower.finite() {
                zero()
            } else {
                neg_infinity()
            },
            upper: if self.upper.finite() {
                zero()
            } else {
                infinity()
            },
        }
    }

    /// The directions in which one can move forever: a finite side becomes
    /// zero, an absent side stays absent.
    pub fn recession(self) -> (r: Bounds)
        ensures
            r == self.recessed(),
    {
        Bounds {
            lower: if self.lower.is_finite() {
                zero()
            } else {
                neg_infinity()
            },
            upper: if self.upper.is_finite() {
                zero()
            } else {
                infinity()
            },
        }
    }

    /// How many finite sides a packed row spends on the interval; an equality is one.
    pub fn packed_sides(self) -> (count: usize)
        ensures
            count == (if self.is_equality() {
                1int
            } else {
                (if self.lower.finite() {
                    1int
                } else {
                    0
                }) + (if self.upper.finite() {
                    1int
                } else {
                    0
                })
            }),
    {
        if self.equality() {
            return 1;
        }
        let lower: usize = if self.lower.is_finite() {
            1
        } else {
            0
        };
        let upper: usize = if self.upper.is_finite() {
            1
        } else {
            0
        };
        lower + upper
    }
}

impl Side {
    pub open spec fn of(self, b: Bounds) -> Real {
        match self {
            Side::Lower => b.lower,
            Side::Upper => b.upper,
        }
    }

    pub fn value(self, b: Bounds) -> (v: Real)
        ensures
            v == self.of(b),
    {
        match self {
            Side::Lower => b.lower,
            Side::Upper => b.upper,
        }
    }
}

/// What a row of the working model demands of its activity.
#[derive(Clone, Copy, Debug, PartialEq, Eq, Structural)]
pub enum RowDomain {
    Linear(Bounds),
    Cone { rhs: Real, block: usize },
    Deleted,
}

impl RowDomain {
    pub open spec fn is_equality(self) -> bool {
        match self {
            RowDomain::Linear(b) => b.is_equality(),
            _ => false,
        }
    }

    pub fn equality(self) -> (b: bool)
        ensures
            b == self.is_equality(),
    {
        match self {
            RowDomain::Linear(b) => b.equality(),
            _ => false,
        }
    }
}

/// Counts of constraints that stop a variable from moving up or down.
#[derive(Clone, Copy, Debug, PartialEq, Eq, Structural)]
pub struct Locks {
    pub up: usize,
    pub down: usize,
}

impl Default for Locks {
    fn default() -> (locks: Self)
        ensures
            locks == (Locks { up: 0, down: 0 }),
    {
        Locks { up: 0, down: 0 }
    }
}

/// A row with this domain stops a variable with this coefficient from
/// increasing (`up`) or decreasing.
pub open spec fn stops(coefficient: Real, domain: RowDomain, up: bool) -> bool {
    match domain {
        RowDomain::Deleted => false,
        RowDomain::Cone { .. } => true,
        RowDomain::Linear(b) => if zero().lt(coefficient) == up {
            b.upper.finite()
        } else {
            b.lower.finite()
        },
    }
}

impl Locks {
    /// The locks that one row puts on a variable through its coefficient.
    pub fn contribution(coefficient: Real, domain: RowDomain) -> (locks: Self)
        ensures
            locks.up == (if stops(coefficient, domain, true) {
                1int
            } else {
                0
            }),
            locks.down == (if stops(coefficient, domain, false) {
                1int
            } else {
                0
            }),
    {
        match domain {
            RowDomain::Deleted => Locks { up: 0, down: 0 },
            RowDomain::Cone { .. } => Locks { up: 1, down: 1 },
            RowDomain::Linear(b) => {
                let lower: usize = if b.lower.is_finite() {
                    1
                } else {
                    0
                };
                let upper: usize = if b.upper.is_finite() {
                    1
                } else {
                    0
                };
                if coefficient.is_positive() {
                    Locks { up: upper, down: lower }
                } else {
                    Locks { up: lower, down: upper }
                }
            },
        }
    }

    pub fn add(&mut self, other: Self)
        requires
            old(self).up + other.up <= usize::MAX,
            old(self).down + other.down <= usize::MAX,
        ensures
            final(self).up == old(self).up + other.up,
            final(self).down == old(self).down + other.down,
    {
        self.up = self.up + other.up;
        self.down = self.down + other.down;
    }

    pub fn remove(&mut self, other: Self)
        requires
            other.up <= old(self).up,
            other.down <= old(self).down,
        ensures
            final(self).up == old(self).up - other.up,
            final(self).down == old(self).down - other.down,
    {
        self.up = self.up - other.up;
        self.down = self.down - other.down;
    }
}

/// Removing locks undoes adding them.
pub proof fn removing_undoes_adding(before: Locks, other: Locks, added: Locks, removed: Locks)
    requires
        added.up == before.up + other.up,
        added.down == before.down + other.down,
        removed.up == added.up - other.up,
        removed.down == added.down - other.down,
    ensures
        removed == before,
{
}

} // verus!
