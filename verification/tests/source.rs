use presolve::arithmetic::Arithmetic;
use presolve::bounds::Bounds;
use presolve::csc::{CscMatrix, MatrixError};
use presolve::number::Real;
use presolve::problem::Constraint;
use presolve::source::{
    BoundLine, BoundType, PairLine, RowLine, RowType, Source, SourceError, TermLine,
};

type Binary = fn(Real, Real) -> Real;

fn num(x: f64) -> Real {
    Real::from_bits(x.to_bits())
}

fn value(v: Real) -> f64 {
    f64::from_bits(v.to_bits())
}

fn nums(list: &[f64]) -> Vec<Real> {
    list.iter().map(|&x| num(x)).collect()
}

fn values(list: &[Real]) -> Vec<f64> {
    list.iter().map(|&v| value(v)).collect()
}

fn plain(entries: &[(usize, Real)]) -> Vec<(usize, f64)> {
    entries.iter().map(|&(j, v)| (j, value(v))).collect()
}

fn arithmetic() -> Arithmetic<Binary, Binary, Binary, Binary> {
    Arithmetic {
        plus: |a, b| num(value(a) + value(b)),
        times: |a, b| num(value(a) * value(b)),
        over: |a, b| num(value(a) / value(b)),
        hypot: |a, b| num(value(a).hypot(value(b))),
    }
}

fn name(text: &str) -> Vec<char> {
    text.chars().collect()
}

fn row(kind: RowType, text: &str) -> RowLine {
    RowLine {
        kind,
        name: name(text),
    }
}

fn pair(set: &str, row: &str, v: f64) -> PairLine {
    PairLine {
        name: name(set),
        row: name(row),
        value: num(v),
    }
}

fn bound(kind: BoundType, column: &str, v: Option<f64>) -> BoundLine {
    BoundLine {
        kind,
        set: name("B"),
        column: name(column),
        value: v.map(num),
    }
}

fn term(first: &str, second: &str, v: f64) -> TermLine {
    TermLine {
        first: name(first),
        second: name(second),
        coefficient: num(v),
    }
}

/// Minimize `x + 2y` with `x + y <= 4`, `x - y >= 1`.
fn source() -> Source {
    Source {
        objective_name: None,
        maximise: false,
        rows: vec![
            row(RowType::Nr, "cost"),
            row(RowType::Leq, "above"),
            row(RowType::Geq, "below"),
        ],
        columns: vec![
            pair("x", "cost", 1.0),
            pair("x", "above", 1.0),
            pair("x", "below", 1.0),
            pair("y", "cost", 2.0),
            pair("y", "above", 1.0),
            pair("y", "below", -1.0),
        ],
        rhs: vec![
            pair("R", "above", 4.0),
            pair("R", "below", 1.0),
            pair("other", "above", 9.0),
        ],
        ranges: vec![],
        bounds: vec![bound(BoundType::Up, "y", Some(3.0))],
        quadratic: None,
    }
}

fn assemble(source: &Source) -> Result<presolve::problem::Problem, SourceError> {
    arithmetic().assemble(source)
}

#[test]
fn sections_make_a_problem_of_their_first_sets() {
    let problem = assemble(&source()).unwrap();
    assert_eq!(values(&problem.c), [1.0, 2.0]);
    assert_eq!(problem.a.rows(), 2);
    assert_eq!(plain(&problem.a.column(1)), [(0, 1.0), (1, -1.0)]);
    let sides: Vec<(f64, f64)> = problem
        .rows
        .iter()
        .map(|row| match row {
            Constraint::Linear(b) => (value(b.lower), value(b.upper)),
            Constraint::Cone { .. } => panic!("no cone was given"),
        })
        .collect();
    assert_eq!(
        sides,
        [(f64::NEG_INFINITY, 4.0), (1.0, f64::INFINITY)]
    );
    assert_eq!(
        problem.variable_bounds[1],
        Bounds {
            lower: num(0.0),
            upper: num(3.0)
        }
    );
}

#[test]
fn faults_of_the_sections_are_told_apart() {
    let mut none = source();
    none.rows.remove(0);
    assert_eq!(assemble(&none).unwrap_err(), SourceError::MissingObjective);

    let mut bare = source();
    bare.bounds = vec![bound(BoundType::Lo, "x", None)];
    assert_eq!(
        assemble(&bare).unwrap_err(),
        SourceError::MissingValue(BoundType::Lo)
    );

    let mut whole = source();
    whole.bounds = vec![bound(BoundType::Discrete, "x", Some(1.0))];
    assert_eq!(assemble(&whole).unwrap_err(), SourceError::Discrete);

    let mut skew = source();
    skew.quadratic = Some(vec![term("x", "y", 1.0), term("y", "x", 2.0)]);
    assert_eq!(assemble(&skew).unwrap_err(), SourceError::Asymmetric);

    let mut endless = source();
    endless.columns[1].value = num(f64::INFINITY);
    assert_eq!(
        assemble(&endless).unwrap_err(),
        SourceError::Matrix(MatrixError::NonFiniteValue)
    );
}

#[test]
fn faults_of_matrices_are_told_apart() {
    let new = |pointers: &[usize], rows: &[usize], list: &[f64]| {
        CscMatrix::new(2, 2, pointers.to_vec(), rows.to_vec(), nums(list)).unwrap_err()
    };
    assert_eq!(
        new(&[0, 1], &[0], &[1.0]),
        MatrixError::InvalidColumnPointerCount
    );
    assert_eq!(
        new(&[0, 2, 1], &[0], &[1.0]),
        MatrixError::InvalidColumnPointers
    );
    assert_eq!(
        new(&[0, 1, 1], &[0], &[]),
        MatrixError::MismatchedSparseArrays
    );
    assert_eq!(
        new(&[0, 1, 1], &[2], &[1.0]),
        MatrixError::RowIndexOutOfBounds { row: 2, rows: 2 }
    );
    assert_eq!(
        new(&[0, 2, 2], &[1, 0], &[1.0, 2.0]),
        MatrixError::UnsortedRowIndices
    );
    assert_eq!(
        new(&[0, 1, 1], &[0], &[f64::NAN]),
        MatrixError::NonFiniteValue
    );
    assert_eq!(
        CscMatrix::identity(usize::MAX).unwrap_err(),
        MatrixError::DimensionOverflow
    );
    let plus = arithmetic().plus;
    let triplets = |rows: &[usize], columns: &[usize], list: &[f64]| {
        CscMatrix::from_triplets(
            2,
            2,
            &rows.to_vec(),
            &columns.to_vec(),
            &nums(list),
            &plus,
        )
        .unwrap_err()
    };
    assert_eq!(
        triplets(&[0], &[0, 1], &[1.0]),
        MatrixError::MismatchedTripletArrays
    );
    assert_eq!(
        triplets(&[0], &[2], &[1.0]),
        MatrixError::ColumnIndexOutOfBounds {
            column: 2,
            columns: 2
        }
    );
}

#[test]
fn identity_matrices_can_be_copied_and_changed() {
    let mut matrix = CscMatrix::identity(2).unwrap();
    let copy = matrix.as_ref().to_owned();
    matrix.set_value(1, num(7.0));
    assert_eq!(matrix.get(1, 1).map(value), Some(7.0));
    assert_eq!(copy.get(1, 1).map(value), Some(1.0));
    assert_eq!(matrix.get(0, 1).map(value), None);
}
