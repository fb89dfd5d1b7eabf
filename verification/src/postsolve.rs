//! Solution recovery and mappings between original, working and reduced
//! coordinates.

use crate::arithmetic::Arithmetic;
use crate::number::{self, zero, Real};
use crate::recovery;
use crate::tape::{self, Point, Recovery, Rule, State};
use vstd::prelude::*;

verus! {

/// A primal point with its multipliers and cone slacks.
#[derive(Clone, Debug)]
pub struct Solution {
    pub x: Vec<Real>,
    pub y: Vec<Real>,
    pub z: Vec<Real>,
    pub conic_dual: Vec<Real>,
    pub conic_slack: Vec<Real>,
}

/// Farkas multipliers. Positive linear and bound multipliers select lower
/// sides; negative ones select upper sides.
#[derive(Clone, Debug)]
pub struct PrimalCertificate {
    pub y: Vec<Real>,
    pub z: Vec<Real>,
    pub conic_dual: Vec<Real>,
}

/// Working indices remain stable through rules; auxiliary variables are
/// appended. These maps lift compact reduced coordinates into them.
#[derive(Clone, Debug)]
pub struct Coordinates {
    pub columns: Vec<usize>,
    pub linear_rows: Vec<usize>,
    pub conic_rows: Vec<usize>,
}

/// Reusable scratch space for a particular postsolve map.
#[derive(Clone, Debug)]
pub struct Workspace {
    pub point: Point,
    pub slacks: Vec<Real>,
}

/// The way back from reduced to original coordinates.
#[derive(Clone, Debug)]
pub struct Postsolve {
    pub rules: Vec<Rule>,
    pub coordinates: Coordinates,
    pub input_linear: Vec<usize>,
    pub input_conic: Vec<usize>,
    pub total_columns: usize,
    pub total_rows: usize,
    pub original_columns: usize,
    pub direct_slacks: Vec<(usize, usize)>,
}

pub open spec fn signed(v: Real, negate: bool) -> Real {
    if negate {
        v.opposite()
    } else {
        v
    }
}

/// The values at the mapped positions.
pub open spec fn picked(map: Seq<usize>, from: Seq<Real>, negate: bool) -> Seq<Real> {
    Seq::new(map.len(), |k: int| signed(from[map[k] as int], negate))
}

pub open spec fn shorter(a: nat, b: nat) -> nat {
    if a < b {
        a
    } else {
        b
    }
}

/// The first `n` values stored at their mapped positions.
pub open spec fn placed(
    to: Seq<Real>,
    map: Seq<usize>,
    values: Seq<Real>,
    negate: bool,
    n: nat,
) -> Seq<Real>
    decreases n,
{
    if n == 0 {
        to
    } else {
        placed(to, map, values, negate, (n - 1) as nat).update(
            map[n - 1] as int,
            signed(values[n - 1], negate),
        )
    }
}

/// Values stored at the mapped positions, as far as there are any.
pub open spec fn scattered(
    to: Seq<Real>,
    map: Seq<usize>,
    values: Seq<Real>,
    negate: bool,
) -> Seq<Real> {
    placed(to, map, values, negate, shorter(map.len(), values.len()))
}

fn pick(map: &Vec<usize>, from: &Vec<Real>, negate: bool) -> (values: Vec<Real>)
    requires
        tape::all_within(map@, from@.len()),
    ensures
        values@ == picked(map@, from@, negate),
{
    let mut values: Vec<Real> = Vec::new();
    let mut k: usize = 0;
    while k < map.len()
        invariant
            k <= map@.len(),
            tape::all_within(map@, from@.len()),
            values@ == picked(map@, from@, negate).take(k as int),
        decreases map@.len() - k,
    {
        assert(map@[k as int] < from@.len());
        let v = from[map[k]];
        if negate {
            values.push(v.neg());
        } else {
            values.push(v);
        }
        k = k + 1;
        assert(values@ =~= picked(map@, from@, negate).take(k as int));
    }
    assert(picked(map@, from@, negate).take(k as int) =~= picked(map@, from@, negate));
    values
}

fn scatter(to: &mut Vec<Real>, map: &Vec<usize>, values: &Vec<Real>, negate: bool)
    requires
        tape::all_within(map@, old(to)@.len()),
    ensures
        final(to)@ == scattered(old(to)@, map@, values@, negate),
        final(to)@.len() == old(to)@.len(),
{
    let ghost start = to@;
    let mut k: usize = 0;
    while k < map.len() && k < values.len()
        invariant
            k <= map@.len(),
            k <= values@.len(),
            to@.len() == start.len(),
            tape::all_within(map@, to@.len()),
            to@ == placed(start, map@, values@, negate, k as nat),
        decreases map@.len() - k,
    {
        assert(map@[k as int] < to@.len());
        let v = values[k];
        let at: usize = map[k];
        if negate {
            to.set(at, v.neg());
        } else {
            to.set(at, v);
        }
        k = k + 1;
    }
}

proof fn placed_values(to: Seq<Real>, map: Seq<usize>, values: Seq<Real>, negate: bool, n: nat)
    requires
        map.no_duplicates(),
        tape::all_within(map, to.len()),
        n <= map.len(),
        n <= values.len(),
    ensures
        placed(to, map, values, negate, n).len() == to.len(),
        forall|k: int|
            0 <= k < n ==> placed(to, map, values, negate, n)[#[trigger] map[k] as int] == signed(
                values[k],
                negate,
            ),
        forall|i: int|
            0 <= i < to.len() && !(exists|k: int| 0 <= k < n && #[trigger] map[k] == i)
                ==> #[trigger] placed(to, map, values, negate, n)[i] == to[i],
    decreases n,
{
    if n > 0 {
        let less = (n - 1) as nat;
        placed_values(to, map, values, negate, less);
        let before = placed(to, map, values, negate, less);
        let after = placed(to, map, values, negate, n);
        assert(map[n - 1] < to.len());
        assert forall|k: int| 0 <= k < n implies after[#[trigger] map[k] as int] == signed(
            values[k],
            negate,
        ) by {
            assert(map[k] < to.len());
            if k < n - 1 {
                assert(map[k] != map[n - 1]);
                assert(before[map[k] as int] == signed(values[k], negate));
            }
        }
        assert forall|i: int|
            0 <= i < to.len() && !(exists|k: int|
                0 <= k < n && #[trigger] map[k] == i) implies #[trigger] after[i] == to[i] by {
            assert(map[n - 1] != i);
            assert(before[i] == to[i]);
        }
    }
}

/// Reading back what was stored through the same map of distinct positions
/// gives the stored values.
pub proof fn gathering_undoes_scattering(
    to: Seq<Real>,
    map: Seq<usize>,
    values: Seq<Real>,
    negate: bool,
)
    requires
        map.no_duplicates(),
        tape::all_within(map, to.len()),
        values.len() == map.len(),
    ensures
        picked(map, scattered(to, map, values, negate), negate) == values,
{
    placed_values(to, map, values, negate, map.len());
    let stored = scattered(to, map, values, negate);
    assert forall|k: int| 0 <= k < map.len() implies picked(map, stored, negate)[k]
        == values[k] by {
        assert(stored[map[k] as int] == signed(values[k], negate));
        number::opposite_is_an_involution(values[k]);
    }
    assert(picked(map, stored, negate) =~= values);
}

/// Storing through one map leaves positions outside it alone.
pub proof fn scattering_keeps_other_positions(
    to: Seq<Real>,
    map: Seq<usize>,
    other: Seq<usize>,
    values: Seq<Real>,
    negate: bool,
    sign: bool,
)
    requires
        map.no_duplicates(),
        tape::all_within(map, to.len()),
        tape::all_within(other, to.len()),
        forall|k: int, l: int|
            0 <= k < map.len() && 0 <= l < other.len() ==> #[trigger] map[k]
                != #[trigger] other[l],
    ensures
        picked(other, scattered(to, map, values, negate), sign) == picked(other, to, sign),
{
    let n = shorter(map.len(), values.len());
    placed_values(to, map, values, negate, n);
    let stored = scattered(to, map, values, negate);
    assert forall|l: int| 0 <= l < other.len() implies picked(other, stored, sign)[l] == picked(
        other,
        to,
        sign,
    )[l] by {
        assert(other[l] < to.len());
        assert(stored[other[l] as int] == to[other[l] as int]);
    }
    assert(picked(other, stored, sign) =~= picked(other, to, sign));
}

fn fill_zero(v: &mut Vec<Real>)
    ensures
        final(v)@ == tape::zeros(old(v)@.len()),
{
    let ghost n = v@.len();
    let mut k: usize = 0;
    while k < v.len()
        invariant
            v@.len() == n,
            k <= n,
            forall|i: int| 0 <= i < k ==> #[trigger] v@[i] == zero(),
        decreases n - k,
    {
        v.set(k, zero());
        k = k + 1;
    }
    assert(v@ =~= tape::zeros(n));
}

fn prefix(v: &Vec<Real>, n: usize) -> (out: Vec<Real>)
    requires
        n <= v@.len(),
    ensures
        out@ == v@.take(n as int),
{
    let mut out: Vec<Real> = Vec::new();
    let mut k: usize = 0;
    while k < n
        invariant
            k <= n <= v@.len(),
            out@ == v@.take(k as int),
        decreases n - k,
    {
        out.push(v[k]);
        k = k + 1;
        assert(out@ =~= v@.take(k as int));
    }
    out
}

impl Postsolve {
    /// Maps point into the working problem, and every rule fits it.
    pub open spec fn wf(&self) -> bool {
        &&& self.original_columns <= self.total_columns
        &&& tape::all_within(self.coordinates.columns@, self.total_columns as nat)
        &&& tape::all_within(self.coordinates.linear_rows@, self.total_rows as nat)
        &&& tape::all_within(self.coordinates.conic_rows@, self.total_rows as nat)
        &&& tape::all_within(self.input_linear@, self.total_rows as nat)
        &&& tape::all_within(self.input_conic@, self.total_rows as nat)
        &&& forall|k: int|
            0 <= k < self.rules@.len() ==> tape::rule_fits(
                #[trigger] self.rules@[k],
                self.total_columns as nat,
                self.total_rows as nat,
            )
        &&& self.input_conic@.len() == 0 ==> self.coordinates.conic_rows@.len() == 0
    }

    /// The workspace belongs to this map.
    pub open spec fn accepts(&self, work: Workspace) -> bool {
        &&& work.point.x@.len() == self.total_columns
        &&& work.point.z@.len() == self.total_columns
        &&& work.point.y@.len() == self.total_rows
        &&& work.slacks@.len() == (if self.input_conic@.len() == 0 {
            0
        } else {
            self.total_rows as nat
        })
    }

    /// The working state that a reduced solution lifts to.
    pub open spec fn lifted(&self, s: Solution) -> State {
        let columns = self.total_columns as nat;
        let rows = self.total_rows as nat;
        State {
            x: scattered(tape::zeros(columns), self.coordinates.columns@, s.x@, false),
            z: scattered(tape::zeros(columns), self.coordinates.columns@, s.z@, false),
            y: scattered(
                scattered(tape::zeros(rows), self.coordinates.linear_rows@, s.y@, false),
                self.coordinates.conic_rows@,
                s.conic_dual@,
                true,
            ),
            s: if self.input_conic@.len() == 0 {
                Seq::empty()
            } else {
                scattered(
                    tape::zeros(rows),
                    self.coordinates.conic_rows@,
                    s.conic_slack@,
                    false,
                )
            },
        }
    }

    /// Positions of the original linear rows in the input's row ordering.
    pub fn original_linear_rows(&self) -> (rows: &Vec<usize>)
        ensures
            rows@ == self.input_linear@,
    {
        &self.input_linear
    }

    /// Positions of the original cone coordinates, in cone-block order.
    pub fn original_conic_rows(&self) -> (rows: &Vec<usize>)
        ensures
            rows@ == self.input_conic@,
    {
        &self.input_conic
    }

    /// Original and reduced coordinate pairs whose slacks survive unchanged.
    pub fn surviving_conic_coordinates(&self) -> (pairs: &Vec<(usize, usize)>)
        ensures
            pairs@ == self.direct_slacks@,
    {
        &self.direct_slacks
    }

    pub fn reduced_conic_dimension(&self) -> (n: usize)
        ensures
            n == self.coordinates.conic_rows@.len(),
    {
        self.coordinates.conic_rows.len()
    }

    pub fn workspace(&self) -> (work: Workspace)
        ensures
            self.accepts(work),
    {
        let slacks = if self.input_conic.len() == 0 {
            Vec::new()
        } else {
            tape::zero_vec(self.total_rows)
        };
        Workspace { point: Point::zeros(self.total_columns, self.total_rows), slacks }
    }

    /// A zero solution of the original dimensions.
    pub fn solution(&self) -> (s: Solution)
        ensures
            s.x@ == tape::zeros(self.original_columns as nat),
            s.z@ == tape::zeros(self.original_columns as nat),
            s.y@ == tape::zeros(self.input_linear@.len()),
            s.conic_dual@ == tape::zeros(self.input_conic@.len()),
            s.conic_slack@ == tape::zeros(self.input_conic@.len()),
    {
        Solution {
            x: tape::zero_vec(self.original_columns),
            z: tape::zero_vec(self.original_columns),
            y: tape::zero_vec(self.input_linear.len()),
            conic_dual: tape::zero_vec(self.input_conic.len()),
            conic_slack: tape::zero_vec(self.input_conic.len()),
        }
    }

    /// Lift reduced coordinates into a workspace, whatever it held before.
    pub fn lift(&self, point: &Solution, work: &mut Workspace)
        requires
            self.wf(),
            self.accepts(*old(work)),
        ensures
            self.accepts(*final(work)),
            recovery::state(final(work).point, final(work).slacks@) == self.lifted(*point),
    {
        fill_zero(&mut work.point.x);
        fill_zero(&mut work.point.y);
        fill_zero(&mut work.point.z);
        fill_zero(&mut work.slacks);
        let map = &self.coordinates;
        scatter(&mut work.point.x, &map.columns, &point.x, false);
        scatter(&mut work.point.z, &map.columns, &point.z, false);
        scatter(&mut work.point.y, &map.linear_rows, &point.y, false);
        scatter(&mut work.point.y, &map.conic_rows, &point.conic_dual, true);
        if self.input_conic.len() > 0 {
            scatter(&mut work.slacks, &map.conic_rows, &point.conic_slack, false);
        } else {
            assert(work.slacks@ =~= Seq::<Real>::empty());
        }
        assert(recovery::state(work.point, work.slacks@) =~= self.lifted(*point));
    }

    /// The original coordinates of a working state.
    pub open spec fn original(&self, st: State, s: Solution) -> bool {
        &&& s.x@ == st.x.take(self.original_columns as int)
        &&& s.z@ == st.z.take(self.original_columns as int)
        &&& s.y@ == picked(self.input_linear@, st.y, false)
        &&& s.conic_dual@ == picked(self.input_conic@, st.y, true)
        &&& s.conic_slack@ == picked(self.input_conic@, st.s, false)
    }

    /// Read original coordinates out of a workspace.
    pub fn gather(&self, work: &Workspace) -> (s: Solution)
        requires
            self.wf(),
            self.accepts(*work),
        ensures
            self.original(recovery::state(work.point, work.slacks@), s),
    {
        let slack = if self.input_conic.len() == 0 {
            Vec::new()
        } else {
            pick(&self.input_conic, &work.slacks, false)
        };
        assert(slack@ =~= picked(self.input_conic@, work.slacks@, false));
        Solution {
            x: prefix(&work.point.x, self.original_columns),
            z: prefix(&work.point.z, self.original_columns),
            y: pick(&self.input_linear, &work.point.y, false),
            conic_dual: pick(&self.input_conic, &work.point.y, true),
            conic_slack: slack,
        }
    }

    /// Recover original coordinates with a reusable workspace.
    pub fn recover_into<
        P: Fn(Real, Real) -> Real,
        T: Fn(Real, Real) -> Real,
        D: Fn(Real, Real) -> Real,
        H: Fn(Real, Real) -> Real,
    >(
        &self,
        point: &Solution,
        work: &mut Workspace,
        arithmetic: &Arithmetic<P, T, D, H>,
    ) -> (out: Solution)
        requires
            self.wf(),
            self.accepts(*old(work)),
            arithmetic.wf(),
        ensures
            self.accepts(*final(work)),
            self.original(
                arithmetic.recovered(self.rules@, self.lifted(*point), Recovery::Solution),
                out,
            ),
    {
        self.lift(point, work);
        arithmetic.recover_with_slacks(
            &self.rules,
            &mut work.point,
            Recovery::Solution,
            &mut work.slacks,
        );
        self.gather(work)
    }

    /// Recover original coordinates.
    pub fn recover_solution<
        P: Fn(Real, Real) -> Real,
        T: Fn(Real, Real) -> Real,
        D: Fn(Real, Real) -> Real,
        H: Fn(Real, Real) -> Real,
    >(&self, point: &Solution, arithmetic: &Arithmetic<P, T, D, H>) -> (out: Solution)
        requires
            self.wf(),
            arithmetic.wf(),
        ensures
            self.original(
                arithmetic.recovered(self.rules@, self.lifted(*point), Recovery::Solution),
                out,
            ),
    {
        let mut work = self.workspace();
        self.recover_into(point, &mut work, arithmetic)
    }

    /// Recover a recession direction of the original problem.
    pub fn recover_primal_ray<
        P: Fn(Real, Real) -> Real,
        T: Fn(Real, Real) -> Real,
        D: Fn(Real, Real) -> Real,
        H: Fn(Real, Real) -> Real,
    >(&self, x: Vec<Real>, arithmetic: &Arithmetic<P, T, D, H>) -> (ray: Vec<Real>)
        requires
            self.wf(),
            arithmetic.wf(),
        ensures
            exists|point: Solution|
                #![trigger self.lifted(point)]
                point.x@ == x@ && point.y@.len() == 0 && point.z@.len() == 0
                    && point.conic_dual@.len() == 0 && point.conic_slack@.len() == 0 && ray@
                    == arithmetic.recovered(
                    self.rules@,
                    self.lifted(point),
                    Recovery::DualInfeasibility,
                ).x.take(self.original_columns as int),
    {
        let point = Solution {
            x,
            y: Vec::new(),
            z: Vec::new(),
            conic_dual: Vec::new(),
            conic_slack: Vec::new(),
        };
        let mut work = self.workspace();
        self.lift(&point, &mut work);
        arithmetic.recover_with_slacks(
            &self.rules,
            &mut work.point,
            Recovery::DualInfeasibility,
            &mut work.slacks,
        );
        assert(self.lifted(point) == self.lifted(point));
        prefix(&work.point.x, self.original_columns)
    }

    /// Recover Farkas multipliers of the original problem.
    pub fn recover_primal_certificate<
        P: Fn(Real, Real) -> Real,
        T: Fn(Real, Real) -> Real,
        D: Fn(Real, Real) -> Real,
        H: Fn(Real, Real) -> Real,
    >(&self, certificate: PrimalCertificate, arithmetic: &Arithmetic<P, T, D, H>) -> (out:
        PrimalCertificate)
        requires
            self.wf(),
            arithmetic.wf(),
        ensures
            exists|point: Solution|
                #![trigger self.lifted(point)]
                {
                    let st = arithmetic.recovered(
                        self.rules@,
                        self.lifted(point),
                        Recovery::PrimalInfeasibility,
                    );
                    &&& point.x@.len() == 0
                    &&& point.conic_slack@.len() == 0
                    &&& point.y@ == certificate.y@
                    &&& point.z@ == certificate.z@
                    &&& point.conic_dual@ == certificate.conic_dual@
                    &&& out.y@ == picked(self.input_linear@, st.y, false)
                    &&& out.z@ == st.z.take(self.original_columns as int)
                    &&& out.conic_dual@ == picked(self.input_conic@, st.y, true)
                },
    {
        let point = Solution {
            x: Vec::new(),
            y: certificate.y,
            z: certificate.z,
            conic_dual: certificate.conic_dual,
            conic_slack: Vec::new(),
        };
        let mut work = self.workspace();
        self.lift(&point, &mut work);
        arithmetic.recover_with_slacks(
            &self.rules,
            &mut work.point,
            Recovery::PrimalInfeasibility,
            &mut work.slacks,
        );
        assert(self.lifted(point) == self.lifted(point));
        PrimalCertificate {
            y: pick(&self.input_linear, &work.point.y, false),
            z: prefix(&work.point.z, self.original_columns),
            conic_dual: pick(&self.input_conic, &work.point.y, true),
        }
    }

    /// The working point of an original solution.
    pub open spec fn spread_out(&self, s: Solution) -> State {
        let columns = self.total_columns as nat;
        let rows = self.total_rows as nat;
        State {
            x: Seq::new(
                columns,
                |j: int|
                    if j < self.original_columns {
                        s.x@[j]
                    } else {
                        zero()
                    },
            ),
            z: Seq::new(
                columns,
                |j: int|
                    if j < self.original_columns {
                        s.z@[j]
                    } else {
                        zero()
                    },
            ),
            y: scattered(
                scattered(tape::zeros(rows), self.input_linear@, s.y@, false),
                self.input_conic@,
                s.conic_dual@,
                true,
            ),
            s: Seq::empty(),
        }
    }

    /// Map a caller's starting point to reduced coordinates. Slacks are copied
    /// for the coordinates that survive unchanged.
    pub fn reduce_warm_start<
        P: Fn(Real, Real) -> Real,
        T: Fn(Real, Real) -> Real,
        D: Fn(Real, Real) -> Real,
        H: Fn(Real, Real) -> Real,
    >(&self, point: &Solution, arithmetic: &Arithmetic<P, T, D, H>) -> (out: Solution)
        requires
            self.wf(),
            arithmetic.wf(),
            point.x@.len() == self.original_columns,
            point.z@.len() == self.original_columns,
            forall|k: int|
                0 <= k < self.direct_slacks@.len() ==> (#[trigger] self.direct_slacks@[k]).0
                    < point.conic_slack@.len(),
        ensures
            ({
                let st = arithmetic.reduced(self.rules@, self.spread_out(*point));
                &&& out.x@ == picked(self.coordinates.columns@, st.x, false)
                &&& out.z@ == picked(self.coordinates.columns@, st.z, false)
                &&& out.y@ == picked(self.coordinates.linear_rows@, st.y, false)
                &&& out.conic_dual@ == picked(self.coordinates.conic_rows@, st.y, true)
                &&& out.conic_slack@ == Seq::new(
                    self.direct_slacks@.len(),
                    |k: int| point.conic_slack@[self.direct_slacks@[k].0 as int],
                )
            }),
    {
        let mut p = Point::zeros(self.total_columns, self.total_rows);
        let mut j: usize = 0;
        while j < self.original_columns
            invariant
                self.wf(),
                j <= self.original_columns,
                p.x@.len() == self.total_columns,
                p.z@.len() == self.total_columns,
                p.y@ == tape::zeros(self.total_rows as nat),
                point.x@.len() == self.original_columns,
                point.z@.len() == self.original_columns,
                forall|i: int|
                    0 <= i < p.x@.len() ==> #[trigger] p.x@[i] == (if i < j {
                        point.x@[i]
                    } else {
                        zero()
                    }),
                forall|i: int|
                    0 <= i < p.z@.len() ==> #[trigger] p.z@[i] == (if i < j {
                        point.z@[i]
                    } else {
                        zero()
                    }),
            decreases self.original_columns - j,
        {
            p.x.set(j, point.x[j]);
            p.z.set(j, point.z[j]);
            j = j + 1;
        }
        scatter(&mut p.y, &self.input_linear, &point.y, false);
        scatter(&mut p.y, &self.input_conic, &point.conic_dual, true);
        assert(recovery::state(p, Seq::<Real>::empty()) =~= self.spread_out(*point));
        arithmetic.reduce_point(&self.rules, &mut p);
        let mut slack: Vec<Real> = Vec::new();
        let mut k: usize = 0;
        while k < self.direct_slacks.len()
            invariant
                k <= self.direct_slacks@.len(),
                forall|k: int|
                    0 <= k < self.direct_slacks@.len() ==> (#[trigger] self.direct_slacks@[k]).0
                        < point.conic_slack@.len(),
                slack@.len() == k,
                forall|i: int|
                    0 <= i < k ==> #[trigger] slack@[i]
                        == point.conic_slack@[self.direct_slacks@[i].0 as int],
            decreases self.direct_slacks@.len() - k,
        {
            assert(self.direct_slacks@[k as int].0 < point.conic_slack@.len());
            let (original, _): (usize, usize) = self.direct_slacks[k];
            slack.push(point.conic_slack[original]);
            k = k + 1;
        }
        assert(slack@ =~= Seq::new(
            self.direct_slacks@.len(),
            |k: int| point.conic_slack@[self.direct_slacks@[k].0 as int],
        ));
        Solution {
            x: pick(&self.coordinates.columns, &p.x, false),
            z: pick(&self.coordinates.columns, &p.z, false),
            y: pick(&self.coordinates.linear_rows, &p.y, false),
            conic_dual: pick(&self.coordinates.conic_rows, &p.y, true),
            conic_slack: slack,
        }
    }

    /// With an empty tape, lifting a reduced solution and reading the reduced
    /// coordinates again gives it back.
    pub proof fn lifting_keeps_reduced_coordinates(&self, s: Solution)
        requires
            self.wf(),
            self.coordinates.columns@.no_duplicates(),
            self.coordinates.linear_rows@.no_duplicates(),
            self.coordinates.conic_rows@.no_duplicates(),
            forall|k: int, l: int|
                0 <= k < self.coordinates.conic_rows@.len() && 0 <= l
                    < self.coordinates.linear_rows@.len() ==> #[trigger] self.coordinates.conic_rows@[k]
                    != #[trigger] self.coordinates.linear_rows@[l],
            s.x@.len() == self.coordinates.columns@.len(),
            s.z@.len() == self.coordinates.columns@.len(),
            s.y@.len() == self.coordinates.linear_rows@.len(),
            s.conic_dual@.len() == self.coordinates.conic_rows@.len(),
            s.conic_slack@.len() == self.coordinates.conic_rows@.len(),
        ensures
            picked(self.coordinates.columns@, self.lifted(s).x, false) == s.x@,
            picked(self.coordinates.columns@, self.lifted(s).z, false) == s.z@,
            picked(self.coordinates.linear_rows@, self.lifted(s).y, false) == s.y@,
            picked(self.coordinates.conic_rows@, self.lifted(s).y, true) == s.conic_dual@,
            self.input_conic@.len() > 0 ==> picked(
                self.coordinates.conic_rows@,
                self.lifted(s).s,
                false,
            ) == s.conic_slack@,
    {
        let columns = tape::zeros(self.total_columns as nat);
        let rows = tape::zeros(self.total_rows as nat);
        let map = self.coordinates;
        gathering_undoes_scattering(columns, map.columns@, s.x@, false);
        gathering_undoes_scattering(columns, map.columns@, s.z@, false);
        gathering_undoes_scattering(rows, map.linear_rows@, s.y@, false);
        placed_values(rows, map.linear_rows@, s.y@, false, map.linear_rows@.len());
        let linear = scattered(rows, map.linear_rows@, s.y@, false);
        gathering_undoes_scattering(linear, map.conic_rows@, s.conic_dual@, true);
        scattering_keeps_other_positions(
            linear,
            map.conic_rows@,
            map.linear_rows@,
            s.conic_dual@,
            true,
            false,
        );
        gathering_undoes_scattering(rows, map.conic_rows@, s.conic_slack@, false);
    }
}

} // verus!
