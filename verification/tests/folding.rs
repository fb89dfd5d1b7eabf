use presolve::arithmetic::Arithmetic;
use presolve::bounds::{Bounds, RowDomain};
use presolve::folding::partition;
use presolve::linked::LinkedMatrix;
use presolve::model::Model;
use presolve::number::Real;
use presolve::objective::Objective;
use presolve::settings::WorkLimit;
use presolve::symmetric::SymmetricMatrix;
use presolve::tape::Rule;

type Binary = fn(Real, Real) -> Real;

fn num(x: f64) -> Real {
    Real::from_bits(x.to_bits())
}

fn value(v: Real) -> f64 {
    f64::from_bits(v.to_bits())
}

fn nums(list: &[f64]) -> Vec<Real> {
    list.iter().map(|&x| num(x)).collect()
}

fn values(list: &[Real]) -> Vec<f64> {
    list.iter().map(|&v| value(v)).collect()
}

fn list(entries: &[(usize, f64)]) -> Vec<(usize, Real)> {
    entries.iter().map(|&(j, v)| (j, num(v))).collect()
}

fn plain(entries: &[(usize, Real)]) -> Vec<(usize, f64)> {
    entries.iter().map(|&(j, v)| (j, value(v))).collect()
}

fn arithmetic() -> Arithmetic<Binary, Binary, Binary, Binary> {
    Arithmetic {
        plus: |a, b| num(value(a) + value(b)),
        times: |a, b| num(value(a) * value(b)),
        over: |a, b| num(value(a) / value(b)),
        hypot: |a, b| num(value(a).hypot(value(b))),
    }
}

fn never() -> bool {
    false
}

fn interval(lower: f64, upper: f64) -> Bounds {
    Bounds {
        lower: num(lower),
        upper: num(upper),
    }
}

fn linear(lower: f64, upper: f64) -> RowDomain {
    RowDomain::Linear(interval(lower, upper))
}

fn flat(c: &[f64], constant: f64) -> Objective {
    Objective {
        p: SymmetricMatrix::zeros(c.len()),
        c: nums(c),
        constant: num(constant),
    }
}

fn matrix(rows: usize, columns: &[Vec<(usize, f64)>]) -> LinkedMatrix {
    let columns: Vec<Vec<(usize, Real)>> = columns.iter().map(|column| list(column)).collect();
    LinkedMatrix::from_columns(rows, &columns)
}

fn row(model: &Model, i: usize) -> Vec<(usize, f64)> {
    plain(&model.a.row(i).to_vec())
}



fn model(rows: Vec<RowDomain>, columns: &[Vec<(usize, f64)>], bounds: &[(f64, f64)]) -> Model {
    let bounds = bounds.iter().map(|&(l, u)| interval(l, u)).collect();
    Model::from_parts(matrix(rows.len(), columns), rows, bounds)
}

fn count(n: usize) -> Real {
    num(n as f64)
}

fn always() -> bool {
    true
}

fn finite_sum(list: &[f64]) -> Option<f64> {
    arithmetic().finite_sum(&nums(list)).map(value)
}

#[test]
fn compensated_sums_preserve_small_terms_and_reject_overflow() {
    assert_eq!(finite_sum(&[0.1, 0.1, 0.1, 0.1]), Some(0.4));
    assert_eq!(finite_sum(&[0.1, 0.2]), Some(0.1 + 0.2));
    assert_eq!(finite_sum(&[1e16, 1.0, -1e16]), Some(1.0));
    assert_eq!(finite_sum(&[f64::MAX, f64::MAX]), None);
}

#[test]
fn sums_of_no_value_and_of_one_are_exact() {
    assert_eq!(finite_sum(&[]), Some(0.0));
    assert_eq!(finite_sum(&[0.3]), Some(0.3));
}

#[test]
fn classes_are_numbered_in_the_order_in_which_they_begin() {
    let keys = vec![
        Some(vec![(9, 1, 0)]),
        None,
        Some(vec![(2, 2, 0), (1, 0, 0)]),
        Some(vec![(9, 1, 0)]),
        Some(vec![(2, 2, 0)]),
        Some(vec![(2, 2, 0), (1, 0, 0)]),
    ];
    assert_eq!(partition(&keys), [0, usize::MAX, 1, 0, 2, 1]);
}

/// Two rows `x + 2y >= 3` and `2x + y >= 3` that no coefficient tells apart.
fn symmetric() -> (Model, Objective) {
    let above = f64::INFINITY;
    (
        model(
            vec![linear(3.0, above), linear(3.0, above)],
            &[vec![(0, 1.0), (1, 2.0)], vec![(0, 2.0), (1, 1.0)]],
            &[(0.0, above), (0.0, above)],
        ),
        flat(&[1.5, 1.5], 2.0),
    )
}

#[test]
fn symmetric_rows_and_columns_are_folded_into_their_first_ones() {
    let (mut m, mut o) = symmetric();
    let fold = arithmetic()
        .fold_lp(&mut m, &mut o, 10, WorkLimit::Default, &count, &never)
        .unwrap();
    assert_eq!(fold, 2);
    match m.tape.as_slice() {
        [Rule::LpFold { columns, rows }] => {
            assert_eq!(*columns, [vec![0, 1]]);
            assert_eq!(*rows, [vec![0, 1]]);
        }
        _ => panic!("one fold"),
    }
    assert_eq!(row(&m, 0), [(0, 3.0)]);
    assert_eq!(row(&m, 1), []);
    assert_eq!(m.rows, [linear(3.0, f64::INFINITY), RowDomain::Deleted]);
    assert_eq!(m.alive, [true, false]);
    assert_eq!(values(&o.c), [3.0, 0.0]);
    assert_eq!(value(o.constant), 2.0);
    assert_eq!(m.revision, 3);
}

#[test]
fn folding_leaves_a_program_alone_without_symmetry_work_or_time() {
    let (mut m, mut o) = symmetric();
    o.c[1] = num(1.0);
    let arithmetic = arithmetic();
    assert!(arithmetic
        .fold_lp(&mut m, &mut o, 10, WorkLimit::Default, &count, &never)
        .is_none());
    let (mut m, mut o) = symmetric();
    assert!(arithmetic
        .fold_lp(&mut m, &mut o, 10, WorkLimit::Entries(3), &count, &never)
        .is_none());
    assert!(arithmetic
        .fold_lp(&mut m, &mut o, 0, WorkLimit::Default, &count, &never)
        .is_none());
    assert!(arithmetic
        .fold_lp(&mut m, &mut o, 10, WorkLimit::Default, &count, &always)
        .is_none());
    o.p.set(0, 0, num(1.0));
    assert!(arithmetic
        .fold_lp(&mut m, &mut o, 10, WorkLimit::Default, &count, &never)
        .is_none());
    assert_eq!(m.revision, 0);
    assert_eq!(m.alive, [true, true]);
}
