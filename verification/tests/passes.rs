use presolve::arithmetic::Arithmetic;
use presolve::bounding::BoundLimits;
use presolve::bounds::{Bounds, RowDomain, Side};
use presolve::classify::Growth;
use presolve::cone::Cone;
use presolve::csc::{CscMatrix, MatrixError};
use presolve::grouping::candidate_groups;
use presolve::linked::LinkedMatrix;
use presolve::model::Model;
use presolve::multipliers::Gains;
use presolve::number::Real;
use presolve::objective::Objective;
use presolve::problem::{Constraint, Problem};
use presolve::schedule::{cleanup_actions, Action, After, Schedule};
use presolve::settings::{EqualitySettings, Progress, Rules, WorkLimit};
use presolve::symmetric::SymmetricMatrix;
use presolve::tape::Rule;
use presolve::working::working_model;

type Binary = fn(Real, Real) -> Real;

fn num(x: f64) -> Real {
    Real::from_bits(x.to_bits())
}

fn value(v: Real) -> f64 {
    f64::from_bits(v.to_bits())
}

fn nums(list: &[f64]) -> Vec<Real> {
    list.iter().map(|&x| num(x)).collect()
}

fn values(list: &[Real]) -> Vec<f64> {
    list.iter().map(|&v| value(v)).collect()
}

fn list(entries: &[(usize, f64)]) -> Vec<(usize, Real)> {
    entries.iter().map(|&(j, v)| (j, num(v))).collect()
}

fn plain(entries: &[(usize, Real)]) -> Vec<(usize, f64)> {
    entries.iter().map(|&(j, v)| (j, value(v))).collect()
}

fn arithmetic() -> Arithmetic<Binary, Binary, Binary, Binary> {
    Arithmetic {
        plus: |a, b| num(value(a) + value(b)),
        times: |a, b| num(value(a) * value(b)),
        over: |a, b| num(value(a) / value(b)),
        hypot: |a, b| num(value(a).hypot(value(b))),
    }
}

fn never() -> bool {
    false
}

fn interval(lower: f64, upper: f64) -> Bounds {
    Bounds {
        lower: num(lower),
        upper: num(upper),
    }
}

fn linear(lower: f64, upper: f64) -> RowDomain {
    RowDomain::Linear(interval(lower, upper))
}

fn equality(value: f64) -> RowDomain {
    RowDomain::Linear(Bounds::fixed(num(value)))
}

fn flat(c: &[f64], constant: f64) -> Objective {
    Objective {
        p: SymmetricMatrix::zeros(c.len()),
        c: nums(c),
        constant: num(constant),
    }
}

fn matrix(rows: usize, columns: &[Vec<(usize, f64)>]) -> LinkedMatrix {
    let columns: Vec<Vec<(usize, Real)>> = columns.iter().map(|column| list(column)).collect();
    LinkedMatrix::from_columns(rows, &columns)
}

fn row(model: &Model, i: usize) -> Vec<(usize, f64)> {
    plain(&model.a.row(i).to_vec())
}


const FREE: (f64, f64) = (f64::NEG_INFINITY, f64::INFINITY);
const TOLERANCE: f64 = 1e-9;

fn model(rows: Vec<RowDomain>, columns: &[Vec<(usize, f64)>], bounds: &[(f64, f64)]) -> Model {
    let bounds = bounds.iter().map(|&(l, u)| interval(l, u)).collect();
    Model::from_parts(matrix(rows.len(), columns), rows, bounds)
}

fn limits() -> BoundLimits {
    BoundLimits {
        gains: Gains {
            feasibility: num(TOLERANCE),
            minimum_gain_factor: num(1e3),
            minimum_relative_gain: num(1e-3),
        },
        huge_bound: num(1e8),
    }
}

fn whole(v: Real) -> bool {
    let v = value(v);
    v.is_finite() && (v - v.round()).abs() <= 1e-12 * v.abs()
}

fn rounded(v: Real) -> u32 {
    value(v).round() as i32 as u32
}

fn growth() -> Growth<fn(Real) -> Real, fn(Real) -> Real> {
    Growth {
        ln: |x| num(value(x).ln()),
        exp: |x| num(value(x).exp()),
    }
}

fn count(n: usize) -> Real {
    num(n as f64)
}

fn range(b: Bounds) -> (f64, f64) {
    (value(b.lower), value(b.upper))
}

fn alive(model: &Model) -> Vec<usize> {
    (0..model.alive.len()).filter(|&j| model.alive[j]).collect()
}

#[test]
fn fixed_columns_move_into_rows_and_objective() {
    let mut m = model(
        vec![linear(f64::NEG_INFINITY, 10.0)],
        &[vec![(0, 2.0)], vec![(0, 1.0)]],
        &[(3.0, 3.0), (0.0, 5.0)],
    );
    let mut o = flat(&[4.0, 1.0], 0.5);
    arithmetic().fixed_variables(&mut m, &mut o);
    assert_eq!(alive(&m), [1]);
    assert_eq!(row(&m, 0), [(1, 1.0)]);
    assert_eq!(m.rows[0], linear(f64::NEG_INFINITY, 4.0));
    assert_eq!(value(o.constant), 12.5);
    assert!(matches!(m.tape[0], Rule::Fixed { column: 0, .. }));
}

#[test]
fn empty_columns_are_fixed_at_the_better_bound_or_give_a_ray() {
    let mut m = model(vec![], &[vec![], vec![]], &[(1.0, 7.0), (-2.0, 5.0)]);
    let mut o = flat(&[1.0, -1.0], 0.0);
    assert!(arithmetic().empty_columns(&mut m, &mut o).is_ok());
    assert_eq!(alive(&m), [] as [usize; 0]);
    assert_eq!(value(o.constant), 1.0 - 5.0);

    let mut m = model(vec![], &[vec![]], &[(0.0, f64::INFINITY)]);
    let mut o = flat(&[-1.0], 0.0);
    let (column, direction) = arithmetic().empty_columns(&mut m, &mut o).unwrap_err();
    assert_eq!((column, value(direction)), (0, 1.0));
}

#[test]
fn unlocked_columns_with_a_cost_are_fixed_and_without_one_leave_with_their_rows() {
    // Nothing stops the first from falling to its bound; the second is free of cost.
    let mut m = model(
        vec![linear(f64::NEG_INFINITY, 4.0)],
        &[vec![(0, 1.0)], vec![(0, 1.0)]],
        &[(0.0, 9.0), (f64::NEG_INFINITY, 9.0)],
    );
    let mut o = flat(&[2.0, 0.0], 0.0);
    assert!(arithmetic().simple_dual_fix(&mut m, &mut o).is_ok());
    assert_eq!(alive(&m), [] as [usize; 0]);
    assert!(matches!(m.rows[0], RowDomain::Deleted));
    assert!(m
        .tape
        .iter()
        .any(|rule| matches!(rule, Rule::Unlocked { column: 1, .. })));
}

#[test]
fn empty_rows_are_deleted_or_contradict() {
    let mut m = model(vec![linear(-1.0, 1.0)], &[vec![]], &[FREE]);
    assert!(arithmetic().empty_rows(&mut m, num(TOLERANCE)).is_ok());
    assert!(matches!(m.rows[0], RowDomain::Deleted));

    let mut m = model(vec![linear(2.0, 3.0)], &[vec![]], &[FREE]);
    let (i, multiplier) = arithmetic()
        .empty_rows(&mut m, num(TOLERANCE))
        .unwrap_err();
    assert_eq!((i, value(multiplier).abs()), (0, 1.0));
}

#[test]
fn singleton_rows_become_bounds_or_contradict_them() {
    let mut m = model(
        vec![linear(2.0, 6.0)],
        &[vec![(0, -2.0)]],
        &[(-10.0, 10.0)],
    );
    assert!(arithmetic().singleton_rows(&mut m, limits(), false).is_ok());
    assert_eq!(range(m.bounds[0]), (-3.0, -1.0));
    assert!(matches!(m.rows[0], RowDomain::Deleted));

    let mut m = model(vec![linear(2.0, 6.0)], &[vec![(0, 1.0)]], &[(7.0, 8.0)]);
    let (i, _) = arithmetic()
        .singleton_rows(&mut m, limits(), false)
        .unwrap_err();
    assert_eq!(i, 0);
}

#[test]
fn free_singleton_columns_take_their_equality_with_them() {
    // x + 2y = 4 with x free and nowhere else.
    let mut m = model(
        vec![equality(4.0), linear(0.0, 1.0)],
        &[vec![(0, 1.0)], vec![(0, 2.0), (1, 1.0)]],
        &[FREE, (0.0, 9.0)],
    );
    let mut o = flat(&[1.0, 3.0], 0.0);
    arithmetic().singleton_columns(&mut m, &mut o, 8, false, &never);
    assert_eq!(alive(&m), [1]);
    assert!(matches!(m.rows[0], RowDomain::Deleted));
    assert_eq!(values(&o.c)[1], 1.0);
    assert_eq!(value(o.constant), 4.0);
}

#[test]
fn pending_bound_cleanup_skips_graph_discovery_and_keeps_scalar_fallback() {
    let n = 17;
    let mut columns = vec![Vec::new(); n];
    for j in 1..n {
        columns[j - 1].push((j - 1, -1.0));
        columns[j].push((j - 1, 1.0));
    }
    for (j, column) in columns.iter_mut().enumerate() {
        column.push((n - 1 + j, 1.0));
    }
    for limit in [n - 2, n - 1] {
        let mut rows = vec![equality(0.0); n - 1];
        rows.extend(vec![linear(f64::NEG_INFINITY, 100.0); n]);
        let mut bounds = vec![FREE; n];
        bounds[0] = (0.0, f64::INFINITY);
        let mut m = model(rows, &columns, &bounds);
        let mut o = flat(&vec![0.0; n], 0.0);
        let arithmetic = arithmetic();
        let round: Vec<usize> = (0..n - 1).collect();
        let trees = arithmetic.batch_doubleton_chains(&mut m, &mut o, &round, limit, &never);
        assert_eq!(trees, 0);
        assert_eq!(m.revision, 0);
        assert!(m.tape.is_empty());
        assert!(m.alive.iter().all(|&alive| alive));
        arithmetic.doubleton_equalities(&mut m, &mut o, limit, false, &whole, &never);
        assert_eq!(m.alive.iter().filter(|&&alive| alive).count(), 1);
    }
}

#[test]
fn short_equalities_eliminate_a_free_column() {
    // x + y + z = 3 with x free, x + y <= 8.
    let mut m = model(
        vec![equality(3.0), linear(f64::NEG_INFINITY, 8.0)],
        &[
            vec![(0, 1.0), (1, 1.0)],
            vec![(0, 1.0), (1, 1.0)],
            vec![(0, 1.0)],
        ],
        &[FREE, (0.0, 1.0), (0.0, 1.0)],
    );
    let mut o = flat(&[1.0, 0.0, 0.0], 0.0);
    arithmetic().short_equalities(
        &mut m,
        &mut o,
        EqualitySettings { work_limit: WorkLimit::Unlimited, ..EqualitySettings::default() },
        8,
        false,
        &never,
    );
    assert_eq!(alive(&m), [1, 2]);
    assert_eq!(row(&m, 1), [(2, -1.0)]);
    assert_eq!(m.rows[1], linear(f64::NEG_INFINITY, 5.0));
    assert_eq!(value(o.constant), 3.0);
    assert_eq!(values(&o.c)[1..], [-1.0, -1.0]);
}

#[test]
fn proportional_rows_are_merged_and_contradictions_are_certified() {
    let columns = [vec![(0, 1.0), (1, 2.0)], vec![(0, 3.0), (1, 6.0)]];
    let mut m = model(
        vec![linear(0.0, 4.0), linear(2.0, 20.0)],
        &columns,
        &[FREE, FREE],
    );
    assert!(arithmetic()
        .parallel_rows(&mut m, num(1e-12), num(TOLERANCE), &rounded)
        .is_ok());
    let kept: Vec<RowDomain> = m
        .rows
        .iter()
        .copied()
        .filter(|row| !matches!(row, RowDomain::Deleted))
        .collect();
    assert_eq!(kept.len(), 1);
    assert!(kept[0] == linear(1.0, 4.0) || kept[0] == linear(2.0, 8.0));

    let mut m = model(
        vec![linear(0.0, 4.0), linear(10.0, 20.0)],
        &columns,
        &[FREE, FREE],
    );
    assert!(arithmetic()
        .parallel_rows(&mut m, num(1e-12), num(TOLERANCE), &rounded)
        .is_err());
}

#[test]
fn proportional_columns_are_aggregated() {
    let mut m = model(
        vec![linear(0.0, 4.0), linear(0.0, 9.0)],
        &[vec![(0, 1.0), (1, 2.0)], vec![(0, 1.0), (1, 2.0)]],
        &[(0.0, 1.0), (0.0, 2.0)],
    );
    let mut o = flat(&[3.0, 3.0], 0.0);
    assert!(arithmetic()
        .parallel_columns(&mut m, &mut o, num(1e-12), false, &rounded)
        .is_ok());
    let kept = alive(&m);
    assert_eq!(kept.len(), 1);
    assert_eq!(range(m.bounds[kept[0]]), (0.0, 3.0));
    assert!(m
        .tape
        .iter()
        .any(|rule| matches!(rule, Rule::ParallelColumns { .. })));
}

#[test]
fn equal_keys_are_grouped_in_the_order_of_their_keys() {
    let keys = vec![
        Some((7, 1)),
        Some((2, 9)),
        None,
        Some((7, 1)),
        Some((2, 9)),
        Some((5, 0)),
        Some((7, 1)),
    ];
    assert_eq!(candidate_groups(&keys), [vec![1, 4], vec![0, 3, 6]]);
}

#[test]
fn bounds_that_a_row_implies_are_removed() {
    // x + y <= 2 with y >= 0 already keeps x below 2.
    let mut m = model(
        vec![linear(f64::NEG_INFINITY, 2.0)],
        &[vec![(0, 1.0)], vec![(0, 1.0)]],
        &[(0.0, 5.0), (0.0, 1.0)],
    );
    arithmetic().remove_redundant_bound(&mut m, 0, Side::Upper, false);
    assert_eq!(range(m.bounds[0]), (0.0, f64::INFINITY));
    arithmetic().remove_redundant_bounds(&mut m, false);
    assert_eq!(range(m.bounds[0]).0, 0.0);
}

#[test]
fn cones_without_variables_are_dropped_or_contradict() {
    for (rhs, feasible) in [([2.0, 1.0], true), ([1.0, 2.0], false)] {
        let mut m = model(
            vec![
                RowDomain::Cone { rhs: num(rhs[0]), block: 0 },
                RowDomain::Cone { rhs: num(rhs[1]), block: 0 },
            ],
            &[vec![]],
            &[FREE],
        );
        m.set_cones(vec![Cone::SecondOrder(2)]);
        let outcome = arithmetic().simplify_cones(&mut m, &growth(), num(TOLERANCE));
        assert_eq!(outcome.is_ok(), feasible);
    }
}

fn problem(rhs: f64) -> Problem {
    Problem {
        p: Some(
            CscMatrix::from_triplets(
                2,
                2,
                &vec![0, 0],
                &vec![0, 1],
                &nums(&[2.0, 1.0]),
                &arithmetic().plus,
            )
            .unwrap(),
        ),
        c: nums(&[1.0, -1.0]),
        c0: num(0.25),
        a: CscMatrix::from_triplets(
            1,
            2,
            &vec![0, 0, 0],
            &vec![1, 0, 1],
            &nums(&[2.0, 1.0, 3.0]),
            &arithmetic().plus,
        )
        .unwrap(),
        rows: vec![Constraint::Linear(interval(0.0, rhs))],
        variable_bounds: vec![interval(0.0, 1.0), interval(0.0, 2.0)],
        cones: vec![],
    }
}

#[test]
fn working_models_hold_the_matrices_and_the_curvature_both_ways() {
    let (m, o) = working_model(&problem(4.0)).unwrap();
    assert_eq!(row(&m, 0), [(0, 1.0), (1, 5.0)]);
    assert_eq!(m.rows[0], linear(0.0, 4.0));
    assert_eq!(value(o.p.get(0, 0)), 2.0);
    assert_eq!(value(o.p.get(1, 0)), 1.0);
    assert_eq!(value(o.p.get(0, 1)), 1.0);
    assert_eq!(values(&o.c), [1.0, -1.0]);
    assert_eq!(value(o.constant), 0.25);
    let mut outside = problem(4.0);
    outside.rows = vec![Constraint::Cone { rhs: num(0.0), block: 3 }];
    assert!(working_model(&outside).is_none());
}

#[test]
fn triplets_are_added_up_and_faults_are_named() {
    let plus = arithmetic().plus;
    let twice = CscMatrix::from_triplets(
        2,
        1,
        &vec![1, 0, 1],
        &vec![0, 0, 0],
        &nums(&[1.0, 4.0, 2.5]),
        &plus,
    )
    .unwrap();
    assert_eq!(twice.row_indices(), [0, 1]);
    assert_eq!(values(twice.values()), [4.0, 3.5]);
    let outside: Result<CscMatrix, MatrixError> =
        CscMatrix::from_triplets(2, 1, &vec![2], &vec![0], &nums(&[1.0]), &plus);
    assert!(outside.is_err());
}

#[test]
fn certificates_carry_the_row_and_the_bounds_that_counter_it() {
    let m = model(
        vec![linear(3.0, 4.0)],
        &[vec![(0, 1.0)], vec![(0, -2.0)]],
        &[(0.0, 1.0), (0.0, 1.0)],
    );
    let point = arithmetic().row_certificate(&m, 0, num(1.0));
    assert_eq!(values(&point.y), [1.0]);
    assert_eq!(values(&point.z), [-1.0, 2.0]);
    assert_eq!(values(&point.x), [0.0, 0.0]);
    assert_eq!(values(&m.primal_certificate(&list(&[(0, 2.0)])).y), [2.0]);
    assert_eq!(
        values(&m.dual_certificate(&list(&[(1, -1.0)])).x),
        [0.0, -1.0]
    );
    assert_eq!(m.propagation_cost(0), None);
    assert!(m.propagation_cost(100).is_some());
}

#[test]
fn a_feasible_point_is_the_nearest_to_nothing_that_the_bounds_allow() {
    let near = model(vec![linear(1.0, 9.0)], &[vec![(0, 1.0)]], &[(2.0, 5.0)]);
    let point = arithmetic().feasible_point(&near, &growth()).unwrap();
    assert_eq!(values(&point), [2.0]);
    let far = model(vec![linear(8.0, 9.0)], &[vec![(0, 1.0)]], &[(2.0, 5.0)]);
    assert!(arithmetic().feasible_point(&far, &growth()).is_none());
}

#[test]
fn any_change_asks_for_another_phase_until_nothing_changes() {
    let arithmetic = arithmetic();
    let mut schedule = Schedule::begin(Progress::AnyChange, 10, 0);
    assert!(schedule.proceed(false));
    let _ = schedule.start(Rules::none(), 10, 0);
    assert_eq!(schedule.end(&arithmetic, 10, 1, &count), After::Repeat);
    assert!(!schedule.proceed(true));
    assert!(schedule.time_limit);
    assert_eq!(cleanup_actions(Rules::none(), true), [] as [Action; 0]);
}

#[test]
fn a_row_can_be_restricted_to_one_of_its_sides() {
    let mut m = model(vec![linear(1.0, 3.0)], &[vec![(0, 1.0)]], &[FREE]);
    m.restrict_row(0, Side::Upper);
    assert_eq!(m.rows[0], equality(3.0));
    assert_eq!(m.revision, 1);
    assert!(m.tape.is_empty());
}
