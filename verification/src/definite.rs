//! Whether a packed symmetric matrix is positive semidefinite, by a triangular
//! factorization.

use crate::arithmetic::Arithmetic;
use crate::classify::{Membership, Verdict, ROOT_TWO};
use crate::cone;
use crate::number::{one, zero, Real};
use crate::semidefinite;
use crate::tape::{HALF, ROOT_HALF};
use vstd::prelude::*;

verus! {

/// The largest absolute value of a vector.
pub open spec fn largest(v: Seq<Real>, n: nat) -> Real
    decreases n,
{
    if n == 0 {
        zero()
    } else {
        largest(v, (n - 1) as nat).larger(v[n - 1].absolute())
    }
}

/// The seed of a kernel vector: two entries, the rest zero.
pub open spec fn seed(n: nat, j: int, at_j: Real, i: int, at_i: Real) -> Seq<Real> {
    Seq::new(
        n,
        |k: int|
            if k == j {
                at_j
            } else if k == i {
                at_i
            } else {
                zero()
            },
    )
}

impl<
    P: Fn(Real, Real) -> Real,
    T: Fn(Real, Real) -> Real,
    D: Fn(Real, Real) -> Real,
    H: Fn(Real, Real) -> Real,
> Arithmetic<P, T, D, H> {
    /// The entry of the matrix; off the diagonal, coordinates are scaled by the
    /// square root of two.
    pub open spec fn entry(&self, x: Seq<Real>, i: int, j: int) -> Real {
        if i < j {
            self.product(x[semidefinite::coordinate(i, j)], Real { bits: ROOT_HALF })
        } else if i == j {
            self.product(x[semidefinite::coordinate(i, i)], one())
        } else {
            self.product(x[semidefinite::coordinate(j, i)], Real { bits: ROOT_HALF })
        }
    }

    /// The part of entry `(i, j)` that the first columns account for.
    pub open spec fn explained(&self, x: Seq<Real>, i: int, j: int, m: nat) -> Real
        decreases m, 0nat,
    {
        if m == 0 {
            zero()
        } else {
            let k = m - 1;
            self.sum(
                self.explained(x, i, j, k as nat),
                self.product(
                    self.product(self.factor(x, i, k as nat), self.factor(x, j, k as nat)),
                    self.pivot(x, k as nat),
                ),
            )
        }
    }

    /// What the columns before `j` leave of entry `(i, j)`.
    pub open spec fn residual(&self, x: Seq<Real>, i: int, j: nat) -> Real {
        self.difference(self.entry(x, i, j as int), self.explained(x, i, j as int, j))
    }

    /// Diagonal entry `j` of the factorization.
    pub open spec fn pivot(&self, x: Seq<Real>, j: nat) -> Real
        decreases j, 1nat,
    {
        self.difference(
            self.entry(x, j as int, j as int),
            self.explained(x, j as int, j as int, j),
        )
    }

    /// Entry `(i, j)` of the triangular factor, below the diagonal.
    pub open spec fn factor(&self, x: Seq<Real>, i: int, j: nat) -> Real
        decreases j, 2nat,
    {
        if self.pivot(x, j).zero() {
            zero()
        } else {
            self.quotient(
                self.difference(self.entry(x, i, j as int), self.explained(x, i, j as int, j)),
                self.pivot(x, j),
            )
        }
    }

    /// A vector on which the quadratic form takes the value that its seed has:
    /// from entry `start` on the seed itself, before that by back substitution.
    pub open spec fn kernel(
        &self,
        x: Seq<Real>,
        v: Seq<Real>,
        start: nat,
        top: nat,
        i: nat,
    ) -> Real
        decreases
                if i >= start {
                    0
                } else {
                    start - i
                },
                0int,
    {
        if i >= start {
            v[i as int]
        } else {
            self.kernel_sum(x, v, start, top, i, top).opposite()
        }
    }

    pub open spec fn kernel_sum(
        &self,
        x: Seq<Real>,
        v: Seq<Real>,
        start: nat,
        top: nat,
        i: nat,
        m: nat,
    ) -> Real
        decreases
                if i >= start {
                    0
                } else {
                    start - i - 1
                },
                1 + m,
    {
        if m <= i || i >= start {
            zero()
        } else {
            self.sum(
                self.kernel_sum(x, v, start, top, i, (m - 1) as nat),
                self.product(self.factor(x, m as int, i), self.kernel(x, v, start, top, m)),
            )
        }
    }

    pub open spec fn kernel_vector(
        &self,
        x: Seq<Real>,
        n: nat,
        v: Seq<Real>,
        start: nat,
        top: nat,
    ) -> Seq<Real> {
        Seq::new(n, |i: int| self.kernel(x, v, start, top, i as nat))
    }

    /// The packed outer product of a vector with itself.
    pub open spec fn outer(&self, v: Seq<Real>, m: nat, i: nat) -> Seq<Real>
        decreases m, i,
    {
        if i > 0 {
            self.outer(v, m, (i - 1) as nat).push(
                self.product(
                    self.product(v[i - 1], v[m as int]),
                    if i - 1 == m {
                        one()
                    } else {
                        Real { bits: ROOT_TWO }
                    },
                ),
            )
        } else if m > 0 {
            self.outer(v, (m - 1) as nat, m)
        } else {
            Seq::empty()
        }
    }

    pub open spec fn scaled(&self, v: Seq<Real>, scale: Real) -> Seq<Real> {
        Seq::new(v.len(), |k: int| self.quotient(v[k], scale))
    }

    /// The separating matrix that a vector gives.
    pub open spec fn definite_witness(
        &self,
        x: Seq<Real>,
        v: Seq<Real>,
        tolerance: Real,
    ) -> Verdict {
        let scale = largest(v, v.len());
        if !scale.finite() || scale.zero() {
            Verdict::Unknown
        } else {
            self.tested(self.outer(self.scaled(v, scale), v.len(), 0), x, tolerance)
        }
    }

    /// The vector for a negative pivot.
    pub open spec fn negative_vector(&self, x: Seq<Real>, n: nat, j: nat) -> Seq<Real> {
        self.kernel_vector(x, n, seed(n, j as int, one(), j as int, one()), j, j)
    }

    /// The vector for a zero pivot beside a nonzero residual.
    pub open spec fn coupled_vector(&self, x: Seq<Real>, n: nat, j: nat, i: nat) -> Seq<Real> {
        let rest = self.residual(x, i as int, j);
        let diagonal = self.difference(
            self.entry(x, i as int, i as int),
            self.explained(x, i as int, i as int, j),
        );
        let half = self.product(diagonal, Real { bits: HALF });
        let lambda = self.difference(half, self.length(half, rest));
        self.kernel_vector(x, n, seed(n, j as int, rest, i as int, lambda), j, (n - 1) as nat)
    }

    /// The verdict from column `j` on, whose rows before `i` are done.
    pub open spec fn definite_from(
        &self,
        x: Seq<Real>,
        n: nat,
        j: nat,
        i: nat,
        tolerance: Real,
    ) -> Verdict
        decreases
                if j < n {
                    n - j
                } else {
                    0
                },
                if i < n {
                    n - i
                } else {
                    0
                },
    {
        if j >= n {
            Verdict::Inside
        } else if i <= j + 1 && self.pivot(x, j).lt(zero()) {
            self.definite_witness(x, self.negative_vector(x, n, j), tolerance)
        } else if i >= n {
            self.definite_from(x, n, j + 1, j + 2, tolerance)
        } else if self.pivot(x, j).zero() && !self.residual(x, i as int, j).zero() {
            self.definite_witness(x, self.coupled_vector(x, n, j, i), tolerance)
        } else if !self.factor(x, i as int, j).finite() {
            Verdict::Unknown
        } else {
            self.definite_from(x, n, j, i + 1, tolerance)
        }
    }

    /// A vector that rules out semidefiniteness separates.
    pub proof fn definite_verdict_separates(
        &self,
        x: Seq<Real>,
        n: nat,
        j: nat,
        i: nat,
        tolerance: Real,
    )
        ensures
            self.definite_from(x, n, j, i, tolerance) matches Verdict::Outside(w)
                ==> self.separates(w, x, tolerance),
        decreases
                if j < n {
                    n - j
                } else {
                    0
                },
                if i < n {
                    n - i
                } else {
                    0
                },
    {
        if j < n && !(i <= j + 1 && self.pivot(x, j).lt(zero())) {
            if i >= n {
                self.definite_verdict_separates(x, n, j + 1, j + 2, tolerance);
            } else if !(self.pivot(x, j).zero() && !self.residual(x, i as int, j).zero())
                && self.factor(x, i as int, j).finite() {
                self.definite_verdict_separates(x, n, j, i + 1, tolerance);
            }
        }
    }

    /// A row of the factor is known in its first columns.
    pub open spec fn row_known(&self, x: Seq<Real>, row: Seq<Real>, i: int, m: nat) -> bool {
        &&& row.len() >= m
        &&& forall|k: int| 0 <= k < m ==> #[trigger] row[k] == self.factor(x, i, k as nat)
    }

    /// The first pivots are known.
    pub open spec fn pivots_known(&self, x: Seq<Real>, d: Seq<Real>, m: nat) -> bool {
        &&& d.len() >= m
        &&& forall|k: int| 0 <= k < m ==> #[trigger] d[k] == self.pivot(x, k as nat)
    }

    fn entry_of(&self, x: &Vec<Real>, n: usize, i: usize, j: usize) -> (r: Real)
        requires
            self.wf(),
            x@.len() == cone::triangle(n as int),
            j <= i < n,
        ensures
            r == self.entry(x@, i as int, j as int),
    {
        proof {
            cone::coordinates_are_distinct(
                j as int,
                i as int,
                j as int,
                i as int,
                n as int,
            );
        }
        let k: usize = semidefinite::packed_index(j, i, x.len());
        if i == j {
            self.product_of(x[k], one())
        } else {
            self.product_of(x[k], Real { bits: ROOT_HALF })
        }
    }

    fn explained_of(
        &self,
        Ghost(x): Ghost<Seq<Real>>,
        left: &Vec<Real>,
        Ghost(i): Ghost<int>,
        right: &Vec<Real>,
        Ghost(j): Ghost<int>,
        d: &Vec<Real>,
        m: usize,
    ) -> (r: Real)
        requires
            self.wf(),
            self.row_known(x, left@, i, m as nat),
            self.row_known(x, right@, j, m as nat),
            self.pivots_known(x, d@, m as nat),
        ensures
            r == self.explained(x, i, j, m as nat),
    {
        let mut total = zero();
        let mut k: usize = 0;
        while k < m
            invariant
                k <= m,
                self.wf(),
                self.row_known(x, left@, i, m as nat),
                self.row_known(x, right@, j, m as nat),
                self.pivots_known(x, d@, m as nat),
                total == self.explained(x, i, j, k as nat),
            decreases m - k,
        {
            let term = self.product_of(self.product_of(left[k], right[k]), d[k]);
            total = self.sum_of(total, term);
            k = k + 1;
        }
        total
    }

    /// Every row of the factor is known as far as back substitution needs it.
    pub open spec fn rows_known(
        &self,
        x: Seq<Real>,
        l: Seq<Vec<Real>>,
        start: nat,
        top: nat,
    ) -> bool {
        forall|k: int|
            0 <= k <= top ==> self.row_known(
                x,
                (#[trigger] l[k])@,
                k,
                if k < start {
                    k as nat
                } else {
                    start
                },
            )
    }

    fn kernel_of(
        &self,
        Ghost(x): Ghost<Seq<Real>>,
        l: &Vec<Vec<Real>>,
        v: Vec<Real>,
        start: usize,
        top: usize,
    ) -> (out: Vec<Real>)
        requires
            self.wf(),
            start <= top < v@.len(),
            l@.len() == v@.len(),
            self.rows_known(x, l@, start as nat, top as nat),
        ensures
            out@ == self.kernel_vector(x, v@.len(), v@, start as nat, top as nat),
    {
        let ghost first = v@;
        let mut v = v;
        let mut i: usize = start;
        while i > 0
            invariant
                i <= start <= top < v@.len(),
                l@.len() == v@.len(),
                v@.len() == first.len(),
                self.wf(),
                self.rows_known(x, l@, start as nat, top as nat),
                forall|k: int| 0 <= k < i ==> #[trigger] v@[k] == first[k],
                forall|k: int|
                    i <= k < v@.len() ==> #[trigger] v@[k] == self.kernel(
                        x,
                        first,
                        start as nat,
                        top as nat,
                        k as nat,
                    ),
            decreases i,
        {
            i = i - 1;
            let mut total = zero();
            let mut m: usize = i;
            while m < top
                invariant
                    i <= m <= top < v@.len(),
                    i < start <= top,
                    l@.len() == v@.len(),
                    self.wf(),
                    self.rows_known(x, l@, start as nat, top as nat),
                    forall|k: int|
                        i + 1 <= k < v@.len() ==> #[trigger] v@[k] == self.kernel(
                            x,
                            first,
                            start as nat,
                            top as nat,
                            k as nat,
                        ),
                    total == self.kernel_sum(
                        x,
                        first,
                        start as nat,
                        top as nat,
                        i as nat,
                        m as nat,
                    ),
                decreases top - m,
            {
                m = m + 1;
                assert(l@[m as int]@[i as int] == self.factor(x, m as int, i as nat)) by {
                    assert(self.row_known(
                        x,
                        l@[m as int]@,
                        m as int,
                        if m < start {
                            m as nat
                        } else {
                            start as nat
                        },
                    ));
                }
                let term = self.product_of(l[m][i], v[m]);
                total = self.sum_of(total, term);
            }
            v.set(i, total.neg());
        }
        assert(v@ =~= self.kernel_vector(x, first.len(), first, start as nat, top as nat));
        v
    }

    fn outer_of(&self, v: &Vec<Real>) -> (w: Vec<Real>)
        requires
            self.wf(),
        ensures
            w@ == self.outer(v@, v@.len(), 0),
            w@.len() == cone::triangle(v@.len() as int),
    {
        let mut w: Vec<Real> = Vec::new();
        let mut j: usize = 0;
        assert(cone::triangle(0) == 0);
        while j < v.len()
            invariant
                j <= v@.len(),
                self.wf(),
                w@ == self.outer(v@, j as nat, 0),
                w@.len() == cone::triangle(j as int),
            decreases v@.len() - j,
        {
            let mut i: usize = 0;
            while i <= j
                invariant
                    j < v@.len(),
                    i <= j + 1,
                    self.wf(),
                    w@ == self.outer(v@, j as nat, i as nat),
                    w@.len() == cone::triangle(j as int) + i,
                decreases j + 1 - i,
            {
                let scale = if i == j {
                    one()
                } else {
                    Real { bits: ROOT_TWO }
                };
                let term = self.product_of(self.product_of(v[i], v[j]), scale);
                w.push(term);
                assert(v.len() == v@.len());
                i = i + 1;
                assert(w@ =~= self.outer(v@, j as nat, i as nat));
            }
            proof {
                cone::triangle_step(j as int);
                assert(self.outer(v@, (j + 1) as nat, 0) == self.outer(
                    v@,
                    j as nat,
                    (j + 1) as nat,
                ));
            }
            j = j + 1;
        }
        w
    }

    fn witness(&self, x: &Vec<Real>, v: Vec<Real>, tolerance: Real) -> (m: Membership)
        requires
            self.wf(),
            x@.len() == cone::triangle(v@.len() as int),
        ensures
            m@ == self.definite_witness(x@, v@, tolerance),
    {
        let mut scale = zero();
        let mut k: usize = 0;
        while k < v.len()
            invariant
                k <= v@.len(),
                scale == largest(v@, k as nat),
            decreases v@.len() - k,
        {
            scale = scale.max(v[k].abs());
            k = k + 1;
        }
        if !scale.is_finite() || scale.is_zero() {
            return Membership::Unknown;
        }
        let ghost goal = self.scaled(v@, scale);
        let mut u: Vec<Real> = Vec::new();
        let mut k: usize = 0;
        while k < v.len()
            invariant
                k <= v@.len(),
                self.wf(),
                goal == self.scaled(v@, scale),
                u@ == goal.take(k as int),
            decreases v@.len() - k,
        {
            u.push(self.quotient_of(v[k], scale));
            k = k + 1;
            assert(u@ =~= goal.take(k as int));
        }
        assert(u@ =~= goal);
        let w = self.outer_of(&u);
        self.separate(w, x, tolerance)
    }

    /// The rows of the factor after the first columns, and those of column `j`
    /// before row `i`.
    pub open spec fn progress(
        &self,
        x: Seq<Real>,
        n: nat,
        l: Seq<Vec<Real>>,
        d: Seq<Real>,
        j: nat,
        i: nat,
    ) -> bool {
        &&& l.len() == n
        &&& d.len() == j + 1
        &&& self.pivots_known(x, d, j + 1)
        &&& forall|r: int|
            0 <= r < n ==> (#[trigger] l[r])@.len() == if r <= j {
                r
            } else if r < i {
                j + 1int
            } else {
                j as int
            }
        &&& forall|r: int| 0 <= r < n ==> self.row_known(x, (#[trigger] l[r])@, r, l[r]@.len())
    }

    fn negative_case(
        &self,
        x: &Vec<Real>,
        n: usize,
        l: &Vec<Vec<Real>>,
        j: usize,
        tolerance: Real,
    ) -> (m: Membership)
        requires
            self.wf(),
            j < n,
            l@.len() == n,
            x@.len() == cone::triangle(n as int),
            self.rows_known(x@, l@, j as nat, j as nat),
        ensures
            m@ == self.definite_witness(
                x@,
                self.negative_vector(x@, n as nat, j as nat),
                tolerance,
            ),
    {
        let v = seed_vector(n, j, one(), j, one());
        let v = self.kernel_of(Ghost(x@), l, v, j, j);
        self.witness(x, v, tolerance)
    }

    fn coupled_case(
        &self,
        x: &Vec<Real>,
        n: usize,
        l: &Vec<Vec<Real>>,
        d: &Vec<Real>,
        j: usize,
        i: usize,
        rest: Real,
        tolerance: Real,
    ) -> (m: Membership)
        requires
            self.wf(),
            j < i < n,
            rest == self.residual(x@, i as int, j as nat),
            x@.len() == cone::triangle(n as int),
            self.progress(x@, n as nat, l@, d@, j as nat, i as nat),
        ensures
            m@ == self.definite_witness(
                x@,
                self.coupled_vector(x@, n as nat, j as nat, i as nat),
                tolerance,
            ),
    {
        assert(l@[i as int]@.len() == j);
        let own = self.entry_of(x, n, i, i);
        let part = self.explained_of(
            Ghost(x@),
            &l[i],
            Ghost(i as int),
            &l[i],
            Ghost(i as int),
            d,
            j,
        );
        let diagonal = self.difference_of(own, part);
        let half = self.product_of(diagonal, Real { bits: HALF });
        let lambda = self.difference_of(half, self.length_of(half, rest));
        let v = seed_vector(n, j, rest, i, lambda);
        proof {
            assert forall|k: int| 0 <= k <= n - 1 implies self.row_known(
                x@,
                (#[trigger] l@[k])@,
                k,
                if k < j {
                    k as nat
                } else {
                    j as nat
                },
            ) by {
                assert(self.row_known(x@, l@[k]@, k, l@[k]@.len()));
            }
        }
        let v = self.kernel_of(Ghost(x@), l, v, j, n - 1);
        self.witness(x, v, tolerance)
    }

    /// Whether a packed matrix is positive semidefinite.
    pub fn classify_definite(&self, x: &Vec<Real>, n: usize, tolerance: Real) -> (m: Membership)
        requires
            self.wf(),
            x@.len() == cone::triangle(n as int),
        ensures
            m@ == self.definite_from(x@, n as nat, 0, 1, tolerance),
    {
        let mut l: Vec<Vec<Real>> = Vec::new();
        let mut d: Vec<Real> = Vec::new();
        let mut r: usize = 0;
        while r < n
            invariant
                r <= n,
                l@.len() == r,
                forall|k: int| 0 <= k < r ==> (#[trigger] l@[k])@.len() == 0,
            decreases n - r,
        {
            l.push(Vec::new());
            r = r + 1;
        }
        let mut j: usize = 0;
        while j < n
            invariant
                j <= n,
                self.wf(),
                x@.len() == cone::triangle(n as int),
                l@.len() == n,
                d@.len() == j,
                self.pivots_known(x@, d@, j as nat),
                forall|r: int|
                    0 <= r < n ==> (#[trigger] l@[r])@.len() == if r < j {
                        r
                    } else {
                        j as int
                    },
                forall|r: int|
                    0 <= r < n ==> self.row_known(x@, (#[trigger] l@[r])@, r, l@[r]@.len()),
                self.definite_from(x@, n as nat, j as nat, (j + 1) as nat, tolerance)
                    == self.definite_from(x@, n as nat, 0, 1, tolerance),
            decreases n - j,
        {
            assert(l@[j as int]@.len() == j);
            let own = self.entry_of(x, n, j, j);
            let part = self.explained_of(
                Ghost(x@),
                &l[j],
                Ghost(j as int),
                &l[j],
                Ghost(j as int),
                &d,
                j,
            );
            let pivot = self.difference_of(own, part);
            if pivot.less(zero()) {
                proof {
                    assert forall|k: int| 0 <= k <= j implies self.row_known(
                        x@,
                        (#[trigger] l@[k])@,
                        k,
                        if k < j {
                            k as nat
                        } else {
                            j as nat
                        },
                    ) by {
                        assert(self.row_known(x@, l@[k]@, k, l@[k]@.len()));
                    }
                }
                return self.negative_case(x, n, &l, j, tolerance);
            }
            d.push(pivot);
            let mut i: usize = j + 1;
            while i < n
                invariant
                    j < i <= n,
                    self.wf(),
                    x@.len() == cone::triangle(n as int),
                    pivot == self.pivot(x@, j as nat),
                    d@[j as int] == pivot,
                    !pivot.lt(zero()),
                    self.progress(x@, n as nat, l@, d@, j as nat, i as nat),
                    self.definite_from(x@, n as nat, j as nat, i as nat, tolerance)
                        == self.definite_from(x@, n as nat, 0, 1, tolerance),
                decreases n - i,
            {
                assert(l@[i as int]@.len() == j && l@[j as int]@.len() == j);
                let own = self.entry_of(x, n, i, j);
                let part = self.explained_of(
                    Ghost(x@),
                    &l[i],
                    Ghost(i as int),
                    &l[j],
                    Ghost(j as int),
                    &d,
                    j,
                );
                let rest = self.difference_of(own, part);
                let value = if pivot.is_zero() {
                    if !rest.is_zero() {
                        return self.coupled_case(x, n, &l, &d, j, i, rest, tolerance);
                    }
                    zero()
                } else {
                    self.quotient_of(rest, pivot)
                };
                if !value.is_finite() {
                    return Membership::Unknown;
                }
                let ghost before = l@;
                let mut row: Vec<Real> = Vec::new();
                std::mem::swap(&mut row, &mut l[i]);
                row.push(value);
                l.set(i, row);
                proof {
                    assert forall|r: int| 0 <= r < n implies (#[trigger] l@[r])@.len()
                        == if r <= j {
                        r
                    } else if r < i + 1 {
                        j + 1
                    } else {
                        j as int
                    } by {
                        if r != i {
                            assert(l@[r] == before[r]);
                        }
                    }
                    assert forall|r: int| 0 <= r < n implies self.row_known(
                        x@,
                        (#[trigger] l@[r])@,
                        r,
                        l@[r]@.len(),
                    ) by {
                        assert(self.row_known(x@, before[r]@, r, before[r]@.len()));
                        if r != i {
                            assert(l@[r] == before[r]);
                        }
                    }
                }
                i = i + 1;
            }
            j = j + 1;
        }
        Membership::Inside
    }
}

fn seed_vector(n: usize, j: usize, at_j: Real, i: usize, at_i: Real) -> (v: Vec<Real>)
    ensures
        v@ == seed(n as nat, j as int, at_j, i as int, at_i),
{
    let ghost goal = seed(n as nat, j as int, at_j, i as int, at_i);
    let mut v: Vec<Real> = Vec::new();
    let mut k: usize = 0;
    while k < n
        invariant
            k <= n,
            goal == seed(n as nat, j as int, at_j, i as int, at_i),
            v@ == goal.take(k as int),
        decreases n - k,
    {
        v.push(
            if k == j {
                at_j
            } else if k == i {
                at_i
            } else {
                zero()
            },
        );
        k = k + 1;
        assert(v@ =~= goal.take(k as int));
    }
    assert(v@ =~= goal);
    v
}

} // verus!
