//! Numbers as points of the real line, and arithmetic without rounding.
//!
//! The laws of the library are stated of exact arithmetic: each operation gives
//! the true value of its arguments, or none where it has no pattern for it.

use crate::arithmetic::Arithmetic;
use crate::bounds::Bounds;
use crate::number::{infinity, minus_one, neg_infinity, one, zero, Real, INFINITY_BITS, ONE_BITS, SIGN};
use vstd::arithmetic::power2::{
    lemma_pow2_adds, lemma_pow2_pos, lemma_pow2_strictly_increases, pow2,
};
use vstd::prelude::*;

verus! {

/// How many magnitudes share an exponent.
pub open spec fn binade() -> int {
    0x10_0000_0000_0000
}

/// A finite magnitude as a multiple of the least positive one.
pub open spec fn steps(magnitude: int) -> int {
    let e = magnitude / binade();
    let f = magnitude % binade();
    if e == 0 {
        f
    } else {
        (binade() + f) * pow2((e - 1) as nat)
    }
}

/// A finite number as a multiple of the least positive one.
pub open spec fn units(x: Real) -> int {
    if x.negative_sign() {
        -steps(x.magnitude())
    } else {
        steps(x.magnitude())
    }
}

/// A finite number as a point of the real line.
pub open spec fn number(x: Real) -> real {
    units(x) as real / pow2(1074) as real
}

proof fn steps_increase(m: int, n: int)
    requires
        0 <= m < n,
    ensures
        0 <= steps(m) < steps(n),
{
    let (d, e) = (m / binade(), n / binade());
    let (f, g) = (m % binade(), n % binade());
    assert(m == binade() * d + f && n == binade() * e + g && 0 <= f < binade() && 0 <= g
        < binade() && d <= e);
    if d > 0 {
        lemma_pow2_pos((d - 1) as nat);
        let p = pow2((d - 1) as nat) as int;
        assert((binade() + f) * p > 0) by (nonlinear_arith)
            requires
                p > 0,
                f >= 0,
        ;
        if d == e {
            assert((binade() + f) * p < (binade() + g) * p) by (nonlinear_arith)
                requires
                    p > 0,
                    f < g,
            ;
        } else {
            let q = pow2((e - 1) as nat) as int;
            lemma_pow2_pos((e - 1 - d) as nat);
            lemma_pow2_adds(1, (d - 1) as nat);
            lemma_pow2_adds((e - 1 - d) as nat, d as nat);
            vstd::arithmetic::power2::lemma2_to64();
            let r = pow2((e - 1 - d) as nat) as int;
            assert(pow2(d as nat) == 2 * p);
            assert(q == r * (2 * p));
            assert((binade() + f) * p < (binade() + g) * q) by (nonlinear_arith)
                requires
                    p > 0,
                    r >= 1,
                    q == r * (2 * p),
                    0 <= f < binade(),
                    g >= 0,
            ;
        }
    } else if e > 0 {
        lemma_pow2_pos((e - 1) as nat);
        let q = pow2((e - 1) as nat) as int;
        assert((binade() + g) * q >= binade()) by (nonlinear_arith)
            requires
                q >= 1,
                g >= 0,
        ;
    }
}

proof fn unit_is_positive()
    ensures
        pow2(1074) as real > 0 as real,
{
    lemma_pow2_pos(1074);
}

/// The comparisons of finite patterns are those of the real line, and the
/// opposite pattern is the opposite number.
pub proof fn numbers_are_ordered(x: Real, y: Real)
    requires
        x.finite(),
        y.finite(),
    ensures
        x.lt(y) <==> number(x) < number(y),
        x.le(y) <==> number(x) <= number(y),
        x.same(y) <==> number(x) == number(y),
        number(x.opposite()) == -number(x),
        x.opposite().finite(),
        x.absolute().finite(),
        number(x.absolute()) == (if number(x) < 0 as real {
            -number(x)
        } else {
            number(x)
        }),
        number(zero()) == 0 as real,
        x.zero() <==> number(x) == 0 as real,
        zero().lt(x) <==> number(x) > 0 as real,
        x.lt(zero()) <==> number(x) < 0 as real,
{
    unit_is_positive();
    let u = pow2(1074) as real;
    assert(steps(0) == 0);
    let (m, n) = (x.magnitude(), y.magnitude());
    if m > 0 {
        steps_increase(0, m);
    }
    if n > 0 {
        steps_increase(0, n);
    }
    if m < n {
        steps_increase(m, n);
    }
    if n < m {
        steps_increase(n, m);
    }
    let (a, b) = (units(x), units(y));
    assert(x.rank() < y.rank() <==> a < b);
    assert(x.rank() == y.rank() <==> a == b);
    quotients_are_ordered(a as real, b as real, u);
    quotients_are_ordered(a as real, 0 as real, u);
    assert(x.opposite().magnitude() == m);
    assert(units(x.opposite()) == -a);
    assert((-a) as real == -(a as real));
    assert(-(a as real) / u == -(a as real / u)) by (nonlinear_arith)
        requires
            u > 0 as real,
    ;
    assert(x.absolute().magnitude() == m);
    assert(0 as real / u == 0 as real) by (nonlinear_arith)
        requires
            u > 0 as real,
    ;
    assert(units(zero()) == 0);
}

/// The opposite pattern is the opposite number.
pub proof fn opposites(x: Real)
    ensures
        number(x.opposite()) == -number(x),
{
    unit_is_positive();
    let u = pow2(1074) as real;
    let a = units(x);
    assert(x.opposite().magnitude() == x.magnitude());
    assert(steps(0) == 0);
    assert(units(x.opposite()) == -a);
    assert((-a) as real == -(a as real));
    assert(-(a as real) / u == -(a as real / u)) by (nonlinear_arith)
        requires
            u > 0 as real,
    ;
}

proof fn quotients_are_ordered(a: real, b: real, u: real)
    by (nonlinear_arith)
    requires
        u > 0 as real,
    ensures
        a < b <==> a / u < b / u,
        a == b <==> a / u == b / u,
{
}

/// The pattern of one is the number one.
pub proof fn one_is_one()
    ensures
        number(one()) == 1 as real,
        number(minus_one()) == -(1 as real),
        one().finite(),
        minus_one().finite(),
        minus_one() == one().opposite(),
{
    unit_is_positive();
    assert(ONE_BITS as int / binade() == 1023 && ONE_BITS as int % binade() == 0);
    lemma_pow2_adds(52, 1022);
    vstd::arithmetic::power2::lemma2_to64();
    vstd::arithmetic::power2::lemma2_to64_rest();
    assert(pow2(52) == binade());
    assert(steps(ONE_BITS as int) == pow2(52) * pow2(1022));
    let u = pow2(1074) as real;
    assert(u / u == 1 as real) by (nonlinear_arith)
        requires
            u > 0 as real,
    ;
    numbers_are_ordered(one(), one());
}

/// A lower side admits a point.
pub open spec fn from_below(side: Real, t: real) -> bool {
    if side.finite() {
        number(side) <= t
    } else {
        side == neg_infinity()
    }
}

/// An upper side admits a point.
pub open spec fn from_above(side: Real, t: real) -> bool {
    if side.finite() {
        t <= number(side)
    } else {
        side == infinity()
    }
}

/// A point of the real line lies in an interval. A side that is not a number
/// admits nothing.
pub open spec fn admits(b: Bounds, t: real) -> bool {
    from_below(b.lower, t) && from_above(b.upper, t)
}

/// The infinity of a sign.
pub open spec fn endless(negative: bool) -> Real {
    if negative {
        neg_infinity()
    } else {
        infinity()
    }
}

/// The value of a sum, if it is one.
pub open spec fn is_sum(a: Real, b: Real, r: Real) -> bool {
    if a.nan() || b.nan() {
        r.nan()
    } else if a.finite() && b.finite() {
        r.nan() || r.finite() && number(r) == number(a) + number(b)
    } else if a.finite() {
        r == b
    } else if b.finite() || a == b {
        r == a
    } else {
        r.nan()
    }
}

/// The value of a product, if it is one.
pub open spec fn is_product(a: Real, b: Real, r: Real) -> bool {
    if a.nan() || b.nan() {
        r.nan()
    } else if a.finite() && b.finite() {
        r.nan() || r.finite() && number(r) == number(a) * number(b)
    } else if a.zero() || b.zero() {
        r.nan()
    } else {
        r == endless(a.negative_sign() != b.negative_sign())
    }
}

/// The value of a quotient, if it is one.
pub open spec fn is_quotient(a: Real, b: Real, r: Real) -> bool {
    if a.nan() || b.nan() || !a.finite() && !b.finite() || a.zero() && b.zero() {
        r.nan()
    } else if !b.finite() {
        r.zero()
    } else if !a.finite() || b.zero() {
        r == endless(a.negative_sign() != b.negative_sign())
    } else {
        r.nan() || r.finite() && number(r) * number(b) == number(a)
    }
}

/// A product of reals.
#[verifier::opaque]
pub open spec fn times(a: real, b: real) -> real {
    a * b
}

/// Products distribute over sums.
pub proof fn times_spreads(a: real, b: real, c: real)
    ensures
        times(a + b, c) == times(a, c) + times(b, c),
        times(a - b, c) == times(a, c) - times(b, c),
        times(c, a + b) == times(c, a) + times(c, b),
        times(c, a - b) == times(c, a) - times(c, b),
{
    reveal(times);
    assert((a + b) * c == a * c + b * c) by (nonlinear_arith);
    assert((a - b) * c == a * c - b * c) by (nonlinear_arith);
    assert(c * (a + b) == c * a + c * b) by (nonlinear_arith);
    assert(c * (a - b) == c * a - c * b) by (nonlinear_arith);
}

/// The order of factors does not matter.
pub proof fn times_commutes(a: real, b: real, c: real)
    ensures
        times(a, b) == times(b, a),
        times(a, times(b, c)) == times(times(a, b), c),
{
    reveal(times);
    assert(a * b == b * a) by (nonlinear_arith);
    assert(a * (b * c) == (a * b) * c) by (nonlinear_arith);
}

/// Zero, one and opposites as factors.
pub proof fn times_plain(a: real, b: real)
    ensures
        times(0 as real, a) == 0 as real,
        times(a, 0 as real) == 0 as real,
        times(1 as real, a) == a,
        times(a, 1 as real) == a,
        times(-a, b) == -times(a, b),
        times(a, -b) == -times(a, b),
{
    reveal(times);
    assert((0 as real) * a == 0 as real) by (nonlinear_arith);
    assert(a * (0 as real) == 0 as real) by (nonlinear_arith);
    assert((1 as real) * a == a) by (nonlinear_arith);
    assert(a * (1 as real) == a) by (nonlinear_arith);
    assert((-a) * b == -(a * b)) by (nonlinear_arith);
    assert(a * (-b) == -(a * b)) by (nonlinear_arith);
}

/// Coefficient times value, added up over entries but those of one index.
pub open spec fn weight(
    entries: Seq<(usize, Real)>,
    x: Seq<Real>,
    exclude: Option<usize>,
) -> real
    decreases entries.len(),
{
    if entries.len() == 0 {
        0 as real
    } else {
        let (j, a) = entries.last();
        weight(entries.drop_last(), x, exclude) + (if exclude == Some(j) {
            0 as real
        } else {
            times(number(a), number(x[j as int]))
        })
    }
}

/// Coefficient times value at a point of real space.
pub open spec fn activity_at(entries: Seq<(usize, Real)>, x: spec_fn(int) -> real) -> real
    decreases entries.len(),
{
    if entries.len() == 0 {
        0 as real
    } else {
        activity_at(entries.drop_last(), x) + number(entries.last().1) * x(entries.last().0 as int)
    }
}

impl<
    P: Fn(Real, Real) -> Real,
    T: Fn(Real, Real) -> Real,
    D: Fn(Real, Real) -> Real,
    H: Fn(Real, Real) -> Real,
> Arithmetic<P, T, D, H> {
    /// Arithmetic without rounding: whatever number an operation gives is the true
    /// one. Where no pattern is, the answer is not a number.
    pub open spec fn exact(&self) -> bool {
        &&& forall|a: Real, b: Real| is_sum(a, b, #[trigger] self.sum(a, b))
        &&& forall|a: Real, b: Real| is_product(a, b, #[trigger] self.product(a, b))
        &&& forall|a: Real, b: Real| is_quotient(a, b, #[trigger] self.quotient(a, b))
    }

    /// A difference is a difference.
    pub proof fn differences_are_exact(&self, a: Real, b: Real)
        requires
            self.exact(),
        ensures
            self.difference(a, b).finite() ==> a.finite() && b.finite() && number(
                self.difference(a, b),
            ) == number(a) - number(b),
            a.finite() && b.finite() ==> self.difference(a, b).finite() || self.difference(
                a,
                b,
            ).nan(),
    {
        let c = b.opposite();
        assert(is_sum(a, c, self.sum(a, c)));
        assert(self.difference(a, b) == self.sum(a, c));
        if b.finite() {
            numbers_are_ordered(b, b);
        }
    }

    /// A sum of products over entries is that sum.
    pub proof fn dots_are_exact(
        &self,
        entries: Seq<(usize, Real)>,
        x: Seq<Real>,
        exclude: Option<usize>,
    )
        requires
            self.exact(),
            self.dot(entries, x, exclude).finite(),
        ensures
            number(self.dot(entries, x, exclude)) == weight(entries, x, exclude),
        decreases entries.len(),
    {
        if entries.len() == 0 {
            numbers_are_ordered(zero(), zero());
        } else {
            reveal(times);
            let (j, a) = entries.last();
            let before = self.dot(entries.drop_last(), x, exclude);
            if exclude != Some(j) {
                let term = self.product(a, x[j as int]);
                assert(is_sum(before, term, self.sum(before, term)));
                assert(is_product(a, x[j as int], term));
            }
            self.dots_are_exact(entries.drop_last(), x, exclude);
        }
    }
}

} // verus!
