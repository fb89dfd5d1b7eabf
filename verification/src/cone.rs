//! Standard cones and the coordinates of their blocks.

use crate::number::Real;
use vstd::prelude::*;

verus! {

/// Cone coordinates use the following fixed conventions. Semidefinite
/// coordinates are upper-triangular and column-major, so entry `(i, j)` with
/// `i <= j` has coordinate `j (j + 1) / 2 + i`.
#[derive(Clone, Copy, Debug, PartialEq, Eq, Structural)]
pub enum Cone {
    Zero(usize),
    Nonnegative(usize),
    SecondOrder(usize),
    RotatedSecondOrder(usize),
    PositiveSemidefinite { order: usize },
    Exponential,
    Power { alpha: Real },
    /// Geometry and coordinate convention belong to the caller.
    Opaque { id: usize, dimension: usize },
}

/// Number of entries of an upper triangle.
pub open spec fn triangle(order: int) -> int {
    order * (order + 1) / 2
}

impl Cone {
    pub open spec fn size(self) -> int {
        match self {
            Cone::Zero(n) => n as int,
            Cone::Nonnegative(n) => n as int,
            Cone::SecondOrder(n) => n as int,
            Cone::RotatedSecondOrder(n) => n as int,
            Cone::PositiveSemidefinite { order } => triangle(order as int),
            Cone::Exponential => 3,
            Cone::Power { .. } => 3,
            Cone::Opaque { dimension, .. } => dimension as int,
        }
    }

    /// Number of coordinates of the cone.
    pub fn dimension(self) -> (n: usize)
        requires
            self matches Cone::PositiveSemidefinite { order } ==> order * (order + 1) <= usize::MAX,
        ensures
            n == self.size(),
    {
        match self {
            Cone::Zero(n) => n,
            Cone::Nonnegative(n) => n,
            Cone::SecondOrder(n) => n,
            Cone::RotatedSecondOrder(n) => n,
            Cone::PositiveSemidefinite { order } => {
                proof {
                    assert(order + 1 <= usize::MAX) by (nonlinear_arith)
                        requires
                            order * (order + 1) <= usize::MAX,
                            order >= 0,
                    ;
                }
                order * (order + 1) / 2
            },
            Cone::Exponential => 3,
            Cone::Power { .. } => 3,
            Cone::Opaque { dimension, .. } => dimension,
        }
    }
}

/// Column `j` of a packed triangle starts after the columns before it.
pub proof fn triangle_step(j: int)
    requires
        j >= 0,
    ensures
        triangle(j + 1) == triangle(j) + j + 1,
        triangle(j) >= 0,
        2 * triangle(j) == j * (j + 1),
{
    assert((j + 1) * (j + 2) == j * (j + 1) + 2 * (j + 1)) by (nonlinear_arith);
    assert((j * (j + 1)) % 2 == 0) by (nonlinear_arith)
        requires
            j >= 0,
    {
        if j % 2 == 0 {
            assert(j == 2 * (j / 2));
            assert(j * (j + 1) == 2 * ((j / 2) * (j + 1)));
        } else {
            assert(j + 1 == 2 * ((j + 1) / 2));
            assert(j * (j + 1) == 2 * (j * ((j + 1) / 2)));
        }
    }
    assert(j * (j + 1) >= 0) by (nonlinear_arith)
        requires
            j >= 0,
    ;
}

/// Triangles grow with their order.
pub proof fn triangle_monotone(j: int, k: int)
    requires
        0 <= j <= k,
    ensures
        triangle(j) <= triangle(k),
        j < k ==> triangle(j) + j + 1 <= triangle(k),
    decreases k - j,
{
    if j < k {
        triangle_step(j);
        triangle_monotone(j + 1, k);
    }
}

/// Distinct entries of a triangle have distinct coordinates, all inside the block.
pub proof fn coordinates_are_distinct(i: int, j: int, k: int, l: int, order: int)
    requires
        0 <= i <= j < order,
        0 <= k <= l < order,
    ensures
        0 <= triangle(j) + i < triangle(order),
        triangle(j) + i == triangle(l) + k ==> i == k && j == l,
{
    triangle_step(j);
    triangle_monotone(j, order);
    if j < l {
        triangle_monotone(j, l);
    } else if l < j {
        triangle_monotone(l, j);
    }
}

} // verus!
