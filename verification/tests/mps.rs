use presolve::csc::CscMatrix;
use presolve::number::Real;
use presolve::problem::{Constraint, Problem};
use presolve::reader::{self, Error};

const INF: f64 = f64::INFINITY;

fn num(x: f64) -> Real {
    Real::from_bits(x.to_bits())
}

fn float(x: Real) -> f64 {
    f64::from_bits(x.to_bits())
}

fn parse(text: &str) -> Result<Problem, Error> {
    reader::parse(
        text,
        &|token: &Vec<char>| token.iter().collect::<String>().parse::<f64>().ok().map(num),
        &|a: Real, b: Real| num(float(a) + float(b)),
    )
}

fn floats(values: &[Real]) -> Vec<f64> {
    values.iter().map(|&v| float(v)).collect()
}

fn row_bounds(problem: &Problem) -> Vec<(f64, f64)> {
    problem
        .rows
        .iter()
        .map(|row| match row {
            Constraint::Linear(b) => (float(b.lower), float(b.upper)),
            Constraint::Cone { .. } => unreachable!(),
        })
        .collect()
}

fn column(matrix: &CscMatrix, j: usize) -> Vec<(usize, f64)> {
    matrix.as_ref().column(j).iter().map(|&(i, v)| (i, float(v))).collect()
}

fn bounds(problem: &Problem) -> Vec<(f64, f64)> {
    problem.variable_bounds.iter().map(|b| (float(b.lower), float(b.upper))).collect()
}

fn good(text: &str) -> Problem {
    match parse(text) {
        Ok(problem) => problem,
        Err(e) => panic!("{:?}", e.message()),
    }
}

#[test]
fn free_format_linear_program() {
    let text = "\
* comment
NAME          TOY extra words
ROWS
 N  COST
 E  BAL
 L  CAP
 G  DEM
 N  SPARE
 E  NEG
COLUMNS
    MARKER    'MARKER'  'INTORG'
    X         COST      1.5   BAL   1.
    X         CAP       2.    SPARE 9.

    MARKER    'MARKER'  'INTEND'
    Y         BAL       -1    DEM   1e0
    Y         NEG       .5
    Z         COST      -2.
RHS
    RHS       COST      4.    BAL   3.
    RHS       CAP       10.   DEM   1.
    RHS       NEG       6.
RANGES
    RNG       BAL       2.    CAP   -4.
    RNG       DEM       5.    NEG   -1.
    RNG       SPARE     7.
BOUNDS
 UP BND       X         8.
 MI BND       Y
 UP BND       Y         3.
 FR BND       Z
ENDATA
";
    let problem = good(text);
    assert_eq!(floats(&problem.c), [1.5, 0.0, -2.0]);
    assert_eq!(float(problem.c0), -4.0);
    assert!(problem.p.is_none());
    assert_eq!(
        row_bounds(&problem),
        [(3.0, 5.0), (6.0, 10.0), (1.0, 6.0), (5.0, 6.0)]
    );
    assert_eq!(column(&problem.a, 0), [(0, 1.0), (1, 2.0)]);
    assert_eq!(column(&problem.a, 1), [(0, -1.0), (2, 1.0), (3, 0.5)]);
    assert_eq!(column(&problem.a, 2), []);
    assert_eq!(bounds(&problem), [(0.0, 8.0), (-INF, 3.0), (-INF, INF)]);
}

#[test]
fn quadratic_objective_is_stored_as_an_upper_triangle() {
    let text = "\
NAME QP
ROWS
 N obj
 L r
COLUMNS
 x r 1
 y r 1
 z r 0
RHS
 rhs r 1
QUADOBJ
 x x 2
 y x -1
 y y 4
 z x 0
ENDATA
";
    let problem = good(text);
    let p = problem.p.as_ref().unwrap();
    assert_eq!((p.rows(), p.columns()), (3, 3));
    assert_eq!(column(p, 0), [(0, 2.0)]);
    assert_eq!(column(p, 1), [(0, -1.0), (1, 4.0)]);
    assert_eq!(column(p, 2), []);
    // An explicit zero coefficient is dropped from A.
    assert_eq!(column(&problem.a, 2), []);
}

#[test]
fn omitted_set_names_are_accepted() {
    let text = "\
NAME
ROWS
 N obj
 L a
 L b
COLUMNS
 x a 1 b 1
 y a 1
RHS
 a 4 b 5
 obj 1
BOUNDS
 UP x 2
 LO y -1
 PL y
ENDATA
";
    let problem = good(text);
    assert_eq!(row_bounds(&problem), [(-INF, 4.0), (-INF, 5.0)]);
    assert_eq!(float(problem.c0), -1.0);
    assert_eq!(bounds(&problem), [(0.0, 2.0), (-1.0, INF)]);
}

#[test]
fn negative_upper_bound_without_lower_frees_the_lower_side() {
    let text = "\
NAME
ROWS
 N obj
COLUMNS
 x obj 1
 y obj 1
BOUNDS
 UP b x -1
 LO b y 0
 UP b y -1
ENDATA
";
    let problem = good(text);
    assert_eq!(bounds(&problem), [(-INF, -1.0), (0.0, -1.0)]);
}

/// Lay out one fixed-format data line at the standard field positions.
fn fixed(fields: [&str; 6]) -> String {
    let [f1, f2, f3, f4, f5, f6] = fields;
    format!(" {f1:<2} {f2:<8}  {f3:<8}  {f4:>12}   {f5:<8}  {f6:>12}").trim_end().to_string()
}

#[test]
fn fixed_format_names_may_contain_spaces() {
    let lines = [
        "NAME          FIXED  (VARIANT)".to_string(),
        "ROWS".into(),
        fixed(["N", "COST", "", "", "", ""]),
        fixed(["E", "ROW 1", "", "", "", ""]),
        fixed(["L", "ROW 2", "", "", "", ""]),
        "COLUMNS".into(),
        fixed(["", "COL A", "COST", "1.", "ROW 1", "2."]),
        fixed(["", "COL A", "ROW 2", "3.", "", ""]),
        fixed(["", "COL B", "ROW 1", "-1.", "", ""]),
        "RHS".into(),
        fixed(["", "RHS 1", "ROW 1", "7.", "ROW 2", "8."]),
        "RANGES".into(),
        fixed(["", "RNG 1", "ROW 2", "3.", "", ""]),
        "BOUNDS".into(),
        fixed(["UP", "BND 1", "COL A", "5.", "", ""]),
        fixed(["FR", "BND 1", "COL B", "", "", ""]),
        "ENDATA".into(),
    ];
    let problem = good(&lines.join("\n"));
    assert_eq!(floats(&problem.c), [1.0, 0.0]);
    assert_eq!(row_bounds(&problem), [(7.0, 7.0), (5.0, 8.0)]);
    assert_eq!(column(&problem.a, 0), [(0, 2.0), (1, 3.0)]);
    assert_eq!(column(&problem.a, 1), [(0, -1.0)]);
    assert_eq!(bounds(&problem), [(0.0, 5.0), (-INF, INF)]);
}

fn error(text: &str) -> String {
    match parse(text) {
        Ok(_) => panic!("expected an error"),
        Err(e) => e.message(),
    }
}

#[test]
fn errors_name_the_offending_line() {
    let head = "NAME\nROWS\n N obj\n L r\nCOLUMNS\n";
    assert_eq!(
        error(&format!("{head} x q 1\nENDATA\n")),
        "line 6: unknown row \"q\""
    );
    assert_eq!(
        error(&format!("{head} x r one\nENDATA\n")),
        "line 6: invalid number \"one\""
    );
    assert_eq!(
        error(&format!("{head} x r 1\nOBJSENSE\n MAX\nENDATA\n")),
        "line 7: unsupported section OBJSENSE"
    );
    assert_eq!(
        error(&format!("{head} x r 1\nBOUNDS\n BV b x\nENDATA\n")),
        "line 8: unsupported bound type \"BV\""
    );
    assert_eq!(error(&format!("{head} x r 1\n")), "missing ENDATA");
    assert_eq!(
        error(&format!("{head} x r 1\n x r 2\nENDATA\n")),
        "matrix entry (r, x) given twice"
    );
    assert_eq!(
        error(&format!("{head} x r 1\nQUADOBJ\n x x 1\n x x 1\nENDATA\n")),
        "QUADOBJ entry (x, x) given twice"
    );
    assert_eq!(
        error("NAME\nROWS\n L r\nCOLUMNS\n x r 1\nENDATA\n"),
        "no objective row"
    );
}
