use presolve::arithmetic::Arithmetic;
use presolve::bounds::{Bounds, RowDomain};
use presolve::csc::CscMatrix;
use presolve::linked::LinkedMatrix;
use presolve::model::Model;
use presolve::number::Real;
use presolve::objective::Objective;
use presolve::packing::{compact_problem, survivors};
use presolve::postsolve::Solution;
use presolve::problem::{Constraint, Problem};
use presolve::settings::WorkLimit;
use presolve::symmetric::SymmetricMatrix;
use presolve::working::working_model;

type Binary = fn(Real, Real) -> Real;

fn num(x: f64) -> Real {
    Real::from_bits(x.to_bits())
}

fn value(v: Real) -> f64 {
    f64::from_bits(v.to_bits())
}

fn nums(list: &[f64]) -> Vec<Real> {
    list.iter().map(|&x| num(x)).collect()
}

fn values(list: &[Real]) -> Vec<f64> {
    list.iter().map(|&v| value(v)).collect()
}

fn list(entries: &[(usize, f64)]) -> Vec<(usize, Real)> {
    entries.iter().map(|&(j, v)| (j, num(v))).collect()
}

fn plain(entries: &[(usize, Real)]) -> Vec<(usize, f64)> {
    entries.iter().map(|&(j, v)| (j, value(v))).collect()
}

fn arithmetic() -> Arithmetic<Binary, Binary, Binary, Binary> {
    Arithmetic {
        plus: |a, b| num(value(a) + value(b)),
        times: |a, b| num(value(a) * value(b)),
        over: |a, b| num(value(a) / value(b)),
        hypot: |a, b| num(value(a).hypot(value(b))),
    }
}

fn never() -> bool {
    false
}

fn interval(lower: f64, upper: f64) -> Bounds {
    Bounds {
        lower: num(lower),
        upper: num(upper),
    }
}

fn linear(lower: f64, upper: f64) -> RowDomain {
    RowDomain::Linear(interval(lower, upper))
}

fn flat(c: &[f64], constant: f64) -> Objective {
    Objective {
        p: SymmetricMatrix::zeros(c.len()),
        c: nums(c),
        constant: num(constant),
    }
}

fn matrix(rows: usize, columns: &[Vec<(usize, f64)>]) -> LinkedMatrix {
    let columns: Vec<Vec<(usize, Real)>> = columns.iter().map(|column| list(column)).collect();
    LinkedMatrix::from_columns(rows, &columns)
}

fn row(model: &Model, i: usize) -> Vec<(usize, f64)> {
    plain(&model.a.row(i).to_vec())
}


const FREE: (f64, f64) = (f64::NEG_INFINITY, f64::INFINITY);

fn model(rows: Vec<RowDomain>, columns: &[Vec<(usize, f64)>], bounds: &[(f64, f64)]) -> Model {
    let bounds = bounds.iter().map(|&(l, u)| interval(l, u)).collect();
    Model::from_parts(matrix(rows.len(), columns), rows, bounds)
}


const ABOVE: f64 = f64::INFINITY;

/// Two columns in one row `x + y >= 1` at costs one and two.
fn rivals(second: (f64, f64)) -> (Model, Objective) {
    (
        model(
            vec![linear(1.0, ABOVE)],
            &[vec![(0, 1.0)], vec![(0, 1.0)]],
            &[(0.0, ABOVE), second],
        ),
        flat(&[1.0, 2.0], 0.0),
    )
}

#[test]
fn a_dominated_column_is_fixed_at_its_lower_bound() {
    let (mut m, mut o) = rivals((0.5, 5.0));
    assert_eq!(
        arithmetic().dominated_columns(&mut m, &mut o, WorkLimit::Default),
        Ok(1)
    );
    assert_eq!(m.alive, [true, false]);
    assert_eq!(m.rows, [linear(0.5, ABOVE)]);
    assert_eq!(value(o.constant), 1.0);
}

#[test]
fn an_endless_exchange_between_columns_is_a_ray() {
    let (mut m, mut o) = rivals((f64::NEG_INFINITY, 5.0));
    let arithmetic = arithmetic();
    assert_eq!(
        arithmetic.dominated_columns(&mut m, &mut o, WorkLimit::Default),
        Err((0, 1))
    );
    assert_eq!(
        arithmetic.dominated_support_groups(&mut m, &mut o, &vec![vec![0, 1]], WorkLimit::Default),
        Err((0, 1))
    );
}

#[test]
fn domination_needs_the_cost_the_rows_and_the_work() {
    let arithmetic = arithmetic();
    let (m, o) = rivals((0.0, 5.0));
    assert_eq!(arithmetic.dominates(&m, &o, 0, 1), (true, 1));
    assert_eq!(arithmetic.dominates(&m, &o, 1, 0), (false, 0));
    // In an equation only equal coefficients can be exchanged.
    let m = model(
        vec![linear(1.0, 1.0)],
        &[vec![(0, 1.0)], vec![(0, 2.0)]],
        &[(0.0, ABOVE), (0.0, 5.0)],
    );
    assert_eq!(arithmetic.dominates(&m, &o, 0, 1), (false, 1));
    assert_ne!(m.equality_fingerprint(0), m.equality_fingerprint(1));
    let (mut m, mut o) = rivals((0.0, 5.0));
    assert_eq!(
        arithmetic.dominated_columns(&mut m, &mut o, WorkLimit::Entries(0)),
        Ok(0)
    );
    assert_eq!(
        arithmetic.dominated_support_groups(&mut m, &mut o, &vec![vec![1, 0]], WorkLimit::Default),
        Ok(1)
    );
    assert_eq!(m.alive, [true, false]);
}

#[test]
fn a_coupled_free_column_is_minimized_out_of_the_objective() {
    // x^2 + xy + 2y^2 - 2x with x = 1 - y/2 is 1.75y^2 + y - 1.
    let mut m = model(vec![], &[vec![], vec![]], &[FREE, FREE]);
    let mut o = flat(&[-2.0, 0.0], 0.0);
    o.p.set(0, 0, num(2.0));
    o.p.set(0, 1, num(1.0));
    o.p.set(1, 1, num(4.0));
    let (offset, slopes) = arithmetic()
        .eliminate_coupled(&mut m, &mut o, 0, 8, &never)
        .unwrap();
    assert_eq!((value(offset), plain(&slopes)), (1.0, vec![(1, -0.5)]));
    assert_eq!(value(o.constant), -1.0);
    assert_eq!(values(&o.c)[1], 1.0);
    assert_eq!(value(o.p.get(1, 1)), 3.5);
    assert_eq!(m.alive, [false, true]);
    // Without curvature there is nothing to solve for.
    o.p.set(1, 1, num(-1.0));
    assert!(arithmetic()
        .eliminate_coupled(&mut m, &mut o, 1, 8, &never)
        .is_none());
}

fn dense(rows: usize, columns: usize, entries: &[f64]) -> CscMatrix {
    let (mut ri, mut ci, mut data) = (Vec::new(), Vec::new(), Vec::new());
    for (i, &v) in entries.iter().enumerate() {
        if v != 0.0 {
            ri.push(i / columns);
            ci.push(i % columns);
            data.push(num(v));
        }
    }
    CscMatrix::from_triplets(rows, columns, &ri, &ci, &data, &arithmetic().plus).unwrap()
}

#[test]
fn symmetry_compares_mirrored_coefficients() {
    let arithmetic = arithmetic();
    let symmetric = |rows, columns, entries: &[f64]| {
        dense(rows, columns, entries).as_ref().is_symmetric(&arithmetic)
    };
    assert!(symmetric(2, 2, &[1.0, 2.0, 2.0, 3.0]));
    assert!(symmetric(2, 2, &[1.0, 2.0, 2.0 + 1e-13, 3.0]));
    assert!(!symmetric(2, 2, &[1.0, 2.0, 2.5, 3.0]));
    assert!(!symmetric(2, 2, &[1.0, 2.0, 0.0, 3.0]));
    assert!(symmetric(2, 2, &[1.0, 1e-13, 0.0, 3.0]));
    assert!(!symmetric(1, 2, &[1.0, 0.0]));
}

fn product(matrix: &CscMatrix, vector: &[f64]) -> Vec<f64> {
    let mut product = vec![0.0; matrix.rows()];
    for (column, x) in vector.iter().copied().enumerate() {
        for (i, v) in matrix.column(column) {
            product[i] += value(v) * x;
        }
    }
    product
}

fn transposed_product(matrix: &CscMatrix, vector: &[f64]) -> Vec<f64> {
    (0..matrix.columns())
        .map(|column| {
            matrix
                .column(column)
                .iter()
                .fold(0.0, |sum, &(i, v)| sum + value(v) * vector[i])
        })
        .collect()
}

#[test]
fn rectangular_products_handle_explicit_sparse_zeros() {
    let canonical = dense(2, 3, &[2.0, 0.0, -1.0, 0.0, 3.0, 4.0]);
    let sparse = CscMatrix::new(
        2,
        3,
        vec![0, 2, 3, 5],
        vec![0, 1, 1, 0, 1],
        nums(&[2.0, 0.0, 3.0, -1.0, 4.0]),
    )
    .unwrap();
    for matrix in [&canonical, &sparse] {
        assert_eq!(product(matrix, &[1.0, 2.0, 3.0]), vec![-1.0, 18.0]);
        assert_eq!(
            transposed_product(matrix, &[2.0, -1.0]),
            vec![4.0, -3.0, -6.0]
        );
    }
    let mut entries = Vec::new();
    for column in 0..sparse.columns() {
        for (row, v) in sparse.column(column) {
            entries.push((row, column, value(v)));
        }
    }
    assert_eq!(
        entries,
        vec![
            (0, 0, 2.0),
            (1, 0, 0.0),
            (1, 1, 3.0),
            (0, 2, -1.0),
            (1, 2, 4.0)
        ]
    );
}

#[test]
fn auxiliary_replacing_an_original_column_rebuilds_the_hessian() {
    let problem = Problem {
        p: Some(dense(2, 2, &[2.0, 0.0, 0.0, 3.0])),
        c: nums(&[0.0; 2]),
        c0: num(0.0),
        a: dense(1, 2, &[1.0, 1.0]),
        rows: vec![Constraint::Linear(interval(f64::NEG_INFINITY, 2.0))],
        variable_bounds: vec![],
        cones: vec![],
    };
    let (mut m, mut o) = working_model(&problem).unwrap();
    assert!(arithmetic().fix_variable(&mut m, &mut o, 0, num(1.0)));
    m.add_variable(interval(FREE.0, FREE.1));
    o.p.add_variable();
    o.c.push(num(0.0));
    let s = survivors(&m);
    let reduced = compact_problem(&m, &o.p, &o.c, o.constant, problem.p, 2, s);
    let p = reduced.p.unwrap();
    assert_eq!(plain(&p.column(0)), [(0, 3.0)]);
    assert_eq!(p.column(1).len(), 0);
    assert_eq!(value(reduced.c0), 1.0);
}

#[test]
fn conic_multipliers_return_to_their_rows_bounds_and_cones() {
    let problem = Problem {
        p: None,
        c: nums(&[1.0, 1.0]),
        c0: num(0.0),
        a: dense(2, 2, &[1.0, 1.0, 0.0, 1.0]),
        rows: vec![
            Constraint::Linear(interval(1.0, 1.0)),
            Constraint::Linear(interval(0.0, 4.0)),
        ],
        variable_bounds: vec![interval(0.0, ABOVE), interval(FREE.0, FREE.1)],
        cones: vec![],
    };
    let map = problem.into_conic().map;
    let arithmetic = arithmetic();
    assert_eq!(map.output_dimension(), 4);
    let point = Solution {
        x: nums(&[0.0; 2]),
        y: nums(&[-2.0, 3.0]),
        z: nums(&[5.0, 0.0]),
        conic_dual: vec![],
        conic_slack: vec![],
    };
    let warm = map.warm_dual(&arithmetic, &point);
    // The equation keeps its sign; of the two sides of the range one is active.
    assert_eq!(values(&warm).iter().map(|v| v.abs()).sum::<f64>(), 10.0);
    assert_eq!(values(&warm).iter().filter(|&&v| v == 0.0).count(), 1);
    let dual = map.dual(&arithmetic, &warm);
    assert_eq!(values(&dual.y), [-2.0, 3.0]);
    assert_eq!(values(&dual.z), [5.0, 0.0]);
    assert_eq!(dual.conic_dual.len(), 0);
}
