use presolve::arithmetic::Arithmetic;
use presolve::batch::RowUpdate;
use presolve::bounding::BoundLimits;
use presolve::bounds::{Bounds, RowDomain, Side};
use presolve::chains::DoubletonStep;
use presolve::direction::used_bound;
use presolve::linked::LinkedMatrix;
use presolve::model::Model;
use presolve::multipliers::{multiplier_range, Gains};
use presolve::number::Real;
use presolve::objective::{Failure, Objective};
use presolve::symmetric::SymmetricMatrix;
use presolve::tape::{Point, Recovery, Rule};

type Binary = fn(Real, Real) -> Real;

fn num(x: f64) -> Real {
    Real::from_bits(x.to_bits())
}

fn value(v: Real) -> f64 {
    f64::from_bits(v.to_bits())
}

fn nums(list: &[f64]) -> Vec<Real> {
    list.iter().map(|&x| num(x)).collect()
}

fn values(list: &[Real]) -> Vec<f64> {
    list.iter().map(|&v| value(v)).collect()
}

fn list(entries: &[(usize, f64)]) -> Vec<(usize, Real)> {
    entries.iter().map(|&(j, v)| (j, num(v))).collect()
}

fn plain(entries: &[(usize, Real)]) -> Vec<(usize, f64)> {
    entries.iter().map(|&(j, v)| (j, value(v))).collect()
}

fn arithmetic() -> Arithmetic<Binary, Binary, Binary, Binary> {
    Arithmetic {
        plus: |a, b| num(value(a) + value(b)),
        times: |a, b| num(value(a) * value(b)),
        over: |a, b| num(value(a) / value(b)),
        hypot: |a, b| num(value(a).hypot(value(b))),
    }
}

fn never() -> bool {
    false
}

fn always() -> bool {
    true
}

fn interval(lower: f64, upper: f64) -> Bounds {
    Bounds {
        lower: num(lower),
        upper: num(upper),
    }
}

fn linear(lower: f64, upper: f64) -> RowDomain {
    RowDomain::Linear(interval(lower, upper))
}

fn fixed(value: f64) -> RowDomain {
    RowDomain::Linear(Bounds::fixed(num(value)))
}

fn flat(c: &[f64], constant: f64) -> Objective {
    Objective {
        p: SymmetricMatrix::zeros(c.len()),
        c: nums(c),
        constant: num(constant),
    }
}

fn matrix(rows: usize, columns: &[Vec<(usize, f64)>]) -> LinkedMatrix {
    let columns: Vec<Vec<(usize, Real)>> = columns.iter().map(|column| list(column)).collect();
    LinkedMatrix::from_columns(rows, &columns)
}

fn fused(a: Real, b: Real, c: Real) -> Real {
    num(value(a).mul_add(value(b), value(c)))
}

fn row(model: &Model, i: usize) -> Vec<(usize, f64)> {
    plain(&model.a.row(i).to_vec())
}

#[test]
fn rejected_row_staging_is_cleared_before_subsequent_substitutions() {
    let arithmetic = arithmetic();
    let dense = [[1., 1., 1., 0.], [1., 2., 2., 0.], [1., 0., 0., 1.]];
    let columns: Vec<Vec<(usize, f64)>> = (0..4)
        .map(|j| {
            dense
                .iter()
                .enumerate()
                .filter_map(|(i, row)| (row[j] != 0.).then_some((i, row[j])))
                .collect()
        })
        .collect();
    let mut model = Model::from_parts(
        matrix(3, &columns),
        [3., 5., 4.].map(fixed).to_vec(),
        vec![Bounds::free(); 4],
    );
    let mut objective = flat(&[1., 2., 3., 4.], 0.);
    let original: Vec<_> = (0..3).map(|i| row(&model, i)).collect();
    let equation = model.equation(0).unwrap();
    assert!(matches!(
        arithmetic.substitute_equation(
            &mut model,
            &mut objective,
            0,
            equation.clone(),
            Bounds::free(),
            0,
            false,
            &never
        ),
        Err(Failure::ConstraintFill)
    ));
    assert_eq!((0..3).map(|i| row(&model, i)).collect::<Vec<_>>(), original);
    assert_eq!(values(&objective.c), [1., 2., 3., 4.]);
    assert!(model.alive.iter().all(|&v| v));
    assert!(matches!(
        arithmetic.substitute_equation(
            &mut model,
            &mut objective,
            0,
            equation.clone(),
            Bounds::free(),
            usize::MAX,
            false,
            &always
        ),
        Err(Failure::Deadline)
    ));
    assert!(arithmetic
        .substitute_equation(
            &mut model,
            &mut objective,
            0,
            equation,
            Bounds::free(),
            usize::MAX,
            false,
            &never
        )
        .is_ok());
    assert!(model.a.row(0).is_empty());
    assert_eq!(row(&model, 1), [(1, 1.), (2, 1.)]);
    assert_eq!(row(&model, 2), [(1, -1.), (2, -1.), (3, 1.)]);
    assert_eq!(values(&objective.c), [0., 1., 2., 4.]);
    assert_eq!(value(objective.constant), 3.);
    let equation = model.equation(1).unwrap();
    assert!(arithmetic
        .substitute_equation(
            &mut model,
            &mut objective,
            2,
            equation,
            Bounds::free(),
            usize::MAX,
            false,
            &never
        )
        .is_ok());
    assert!(model.a.row(1).is_empty());
    assert_eq!(row(&model, 2), [(3, 1.)]);
    assert_eq!(model.rows[2], fixed(3.));
    assert_eq!(values(&objective.c), [0., -1., 0., 4.]);
    assert_eq!(value(objective.constant), 7.);
}

#[test]
fn multiplier_ranges_follow_native_signs() {
    let infinite = f64::INFINITY;
    assert_eq!(
        multiplier_range(interval(1.0, infinite)),
        interval(0.0, infinite)
    );
    assert_eq!(
        multiplier_range(interval(-infinite, 1.0)),
        interval(-infinite, 0.0)
    );
    assert_eq!(multiplier_range(Bounds::fixed(num(1.0))), Bounds::free());
    assert_eq!(multiplier_range(interval(0.0, 1.0)), Bounds::free());
}

#[test]
fn used_bounds_extremize_each_term() {
    assert_eq!(used_bound(Side::Upper, num(2.0)), Side::Lower);
    assert_eq!(used_bound(Side::Upper, num(-2.0)), Side::Upper);
    assert_eq!(used_bound(Side::Lower, num(2.0)), Side::Upper);
    assert_eq!(used_bound(Side::Lower, num(-2.0)), Side::Lower);
}

#[test]
fn dependencies_arithmetic_checks_reject_rounding_and_underflow() {
    let arithmetic = arithmetic();
    let product = |a: f64, b: f64| {
        arithmetic
            .exact_product(num(a), num(b), &fused)
            .map(value)
    };
    let difference = |a: f64, b: f64| arithmetic.exact_difference(num(a), num(b)).map(value);
    assert_eq!(product(0.5, 3.), Some(1.5));
    assert_eq!(product(0.1, 3.), None);
    assert_eq!(product(1e-300, 1e-100), None);
    assert_eq!(product(f64::MAX, 2.), None);
    assert_eq!(difference(2., 1.), Some(1.));
    assert_eq!(difference(1., 1e-20), None);
}

#[test]
fn near_cancellations_and_overflow_are_not_rewritten() {
    let arithmetic = arithmetic();
    let base: Vec<(usize, Real)> = (0..20).map(|j| (j, num(1.0))).collect();
    let mut other = base.clone();
    other[19].1 = num(1.0 + 1e-12);
    assert!(arithmetic.subtract(&base, &other, num(1.0)).is_none());
    assert!(arithmetic
        .shifted(fixed(-f64::MAX), num(f64::MAX))
        .is_none());
}

#[test]
fn a_row_difference_keeps_what_the_reference_does_not_hold() {
    let arithmetic = arithmetic();
    let out = arithmetic.subtract(
        &list(&[(0, 1.0), (1, 2.0), (3, 1.0)]),
        &list(&[(0, 2.0), (1, 4.0), (2, 5.0), (3, 3.0)]),
        num(2.0),
    );
    assert_eq!(plain(&out.unwrap()), [(2, 5.0), (3, 1.0)]);
}

fn fixture(sign: f64, branched: bool) -> (Model, Objective) {
    let n = 18;
    let x: Vec<f64> = (0..n).map(|j| j as f64).collect();
    let mut columns = vec![Vec::new(); n];
    let mut rows = Vec::new();
    for j in 1..17 {
        let parent = if branched { (j - 1) / 2 } else { j - 1 };
        columns[parent].push((j - 1, -sign));
        columns[j].push((j - 1, 1.0));
        rows.push(fixed(x[j] - sign * x[parent]));
    }
    for (j, column) in columns.iter_mut().enumerate() {
        column.push((16, if j == 17 { 3.0 } else { 1.0 }));
        column.push((17, if j % 2 == 0 { 2.0 } else { 1.0 }));
    }
    let activity = |i: usize| -> f64 {
        columns
            .iter()
            .zip(&x)
            .map(|(a, x)| {
                a.iter()
                    .find(|&&(r, _)| r == i)
                    .map_or(0.0, |&(_, a)| a * x)
            })
            .sum()
    };
    rows.push(linear(activity(16), f64::INFINITY));
    rows.push(linear(f64::NEG_INFINITY, activity(17)));
    let y: Vec<f64> = (0..18)
        .map(|i| if i == 17 { -1.0 } else { (i % 3 + 1) as f64 })
        .collect();
    let mut z = vec![0.0; n];
    z[0] = 2.0;
    let c: Vec<f64> = columns
        .iter()
        .enumerate()
        .map(|(j, a)| a.iter().map(|&(i, a)| a * y[i]).sum::<f64>() + z[j])
        .collect();
    let mut bounds = vec![Bounds::free(); n];
    bounds[0] = interval(0.0, 100.0);
    (
        Model::from_parts(matrix(18, &columns), rows, bounds),
        flat(&c, 3.0),
    )
}

#[test]
fn a_tree_of_doubletons_collapses_onto_its_root_with_the_objective_kept() {
    let arithmetic = arithmetic();
    for (sign, branched) in [(-1.0, false), (1.0, false), (-1.0, true), (1.0, true)] {
        let (mut model, mut objective) = fixture(sign, branched);
        let worth = |o: &Objective, alive: &dyn Fn(usize) -> bool| -> f64 {
            value(o.constant)
                + (0..18)
                    .filter(|&j| alive(j))
                    .map(|j| value(o.c[j]) * j as f64)
                    .sum::<f64>()
        };
        let before = worth(&objective, &|_| true);
        let round: Vec<usize> = (0..16).collect();
        let trees = arithmetic.batch_doubleton_chains(
            &mut model,
            &mut objective,
            &round,
            64,
            &never,
        );
        assert_eq!(trees, 1);
        let steps: &Vec<DoubletonStep> = match model.tape.as_slice() {
            [Rule::DoubletonChain { steps }] => steps,
            _ => panic!("one tree"),
        };
        assert_eq!(steps.len(), 16);
        assert_eq!(model.alive.iter().filter(|&&a| a).count(), 2);
        assert_eq!(model.a.nnz(), 4);
        let alive = model.alive.clone();
        assert_eq!(worth(&objective, &|j| alive[j]), before);
        for step in steps {
            let (own, parent) = (step.column as f64, step.parent as f64);
            assert_eq!(
                value(step.pivot) * own + value(step.other) * parent,
                value(step.rhs)
            );
        }
    }
}

#[test]
fn unsupported_bounds_curvature_cycles_fill_and_overflow_leave_batch_transactional() {
    let arithmetic = arithmetic();
    for variant in 0..7 {
        let (mut model, mut objective) = fixture(1.0, false);
        let mut limit = 64;
        match variant {
            0 => model.bounds[8] = interval(0.0, 100.0),
            1 => limit = 0,
            2 => model.rows[3] = fixed(f64::MAX),
            4 => {
                let columns: Vec<Vec<(usize, Real)>> =
                    (0..18).map(|j| vec![(j, num(1.0))]).collect();
                objective.p = SymmetricMatrix::from_upper_columns(&columns)
            }
            _ => {}
        }
        if variant == 2 {
            model.rows[4] = fixed(f64::MAX);
        }
        if variant == 1 {
            let entries: Vec<(usize, f64)> =
                row(&model, 16).into_iter().filter(|e| e.0 != 0).collect();
            let update: RowUpdate = (16, list(&entries), model.rows[16]);
            model.replace_rows_batch(&vec![update]);
        }
        if variant == 5 {
            model.replace_rows_batch(&vec![(
                16,
                list(&[(0, 1.0), (16, -1.0)]),
                fixed(-16.0),
            )]);
        }
        if variant == 6 {
            let domain = model.rows[16];
            model.replace_rows_batch(&vec![(
                16,
                list(&[(0, 1.0), (1, -1.0 + 1e-12)]),
                domain,
            )]);
        }
        let revision = model.revision;
        let c = values(&objective.c);
        let round: Vec<usize> = (0..if variant == 5 { 17 } else { 16 }).collect();
        let late = variant == 3;
        let trees = arithmetic.batch_doubleton_chains(
            &mut model,
            &mut objective,
            &round,
            limit,
            &|| late,
        );
        assert_eq!(model.revision, revision, "variant {variant}");
        assert_eq!(values(&objective.c), c);
        assert_eq!(trees, 0);
        assert!(model.alive.iter().all(|&x| x));
    }
}

#[test]
fn batch_rewrites_rows_once_and_preserves_objective_primal_dual_and_warm_start() {
    let arithmetic = arithmetic();
    for (sign, branched) in [(-1.0, false), (1.0, false), (-1.0, true), (1.0, true)] {
        let (mut model, mut objective) = fixture(sign, branched);
        let (source, costs) = fixture(sign, branched);
        let mut original = Point::zeros(18, 18);
        for i in 0..18 {
            original.x[i] = num(i as f64);
            original.y[i] = num(if i == 17 { -1.0 } else { (i % 3 + 1) as f64 });
        }
        original.z[0] = num(2.0);
        let dot = |o: &Objective, x: &[Real]| -> f64 {
            o.c.iter().zip(x).map(|(c, x)| value(*c) * value(*x)).sum::<f64>()
        };
        let worth = 3.0 + dot(&costs, &original.x);
        let round: Vec<usize> = (0..16).collect();
        arithmetic.batch_doubleton_chains(&mut model, &mut objective, &round, 64, &never);
        assert!(
            matches!(model.tape.as_slice(), [Rule::DoubletonChain { steps }] if steps.len() == 16)
        );
        assert_eq!(model.alive.iter().filter(|&&a| a).count(), 2);
        assert_eq!(model.a.nnz(), 4);
        let residual = |m: &Model, o: &Objective, p: &Point, costs: bool| {
            for j in 0..18 {
                if m.alive[j] {
                    let rows = m.column_entries(j);
                    let sum = rows.iter().map(|&(i, a)| value(a) * value(p.y[i])).sum::<f64>();
                    let c = if costs { value(o.c[j]) } else { 0.0 };
                    assert!((c - sum - value(p.z[j])).abs() < 1e-9);
                }
            }
        };
        let mut warm = original.clone();
        arithmetic.reduce_point(&model.tape, &mut warm);
        residual(&model, &objective, &warm, true);
        assert_eq!(value(objective.constant) + dot(&objective, &warm.x), worth);
        let mut recovered = warm;
        arithmetic.recover(&model.tape, &mut recovered, Recovery::Solution);
        assert_eq!(values(&recovered.x), values(&original.x));
        assert_eq!(values(&recovered.y), values(&original.y));
        assert_eq!(values(&recovered.z), values(&original.z));
        residual(&source, &costs, &recovered, true);
        let mut ray = Point::zeros(18, 18);
        ray.x[0] = num(1.0);
        ray.x[17] = num(2.0);
        arithmetic.recover(&model.tape, &mut ray, Recovery::DualInfeasibility);
        for i in 0..16 {
            let row = source.row_entries(i);
            assert_eq!(row.iter().map(|&(j, a)| value(a) * value(ray.x[j])).sum::<f64>(), 0.0);
        }
        let mut proof = Point::zeros(18, 18);
        proof.y[16] = num(1.0);
        proof.y[17] = num(-2.0);
        for j in [0, 17] {
            let rows = model.column_entries(j);
            let sum = rows.iter().map(|&(i, a)| value(a) * value(proof.y[i])).sum::<f64>();
            proof.z[j] = num(-sum);
        }
        arithmetic.recover(&model.tape, &mut proof, Recovery::PrimalInfeasibility);
        residual(&source, &costs, &proof, false);
    }
}

#[test]
fn infeasibility_after_a_batch_lifts_a_valid_bound_certificate() {
    let arithmetic = arithmetic();
    let n = 17;
    let mut columns: Vec<Vec<(usize, f64)>> = vec![Vec::new(); n];
    for j in 1..n {
        columns[j - 1].push((j - 1, -1.0));
        columns[j].push((j - 1, 1.0));
    }
    for column in &mut columns {
        column.push((n - 1, 1.0));
    }
    let mut rows = vec![RowDomain::Linear(interval(0.0, 0.0)); n];
    rows[n - 1] = RowDomain::Linear(interval(f64::NEG_INFINITY, -1.0));
    let mut bounds = vec![Bounds::free(); n];
    bounds[0] = interval(0.0, f64::INFINITY);
    let mut model = Model::from_parts(matrix(n, &columns), rows, bounds);
    let mut objective = flat(&vec![0.0; n], 0.0);
    let round: Vec<usize> = (0..n - 1).collect();
    arithmetic.batch_doubleton_chains(&mut model, &mut objective, &round, 64, &never);
    assert!(matches!(model.tape.first(), Some(Rule::DoubletonChain { .. })));
    let limits = BoundLimits {
        gains: Gains {
            feasibility: num(1e-9),
            minimum_gain_factor: num(1e4),
            minimum_relative_gain: num(5e-3),
        },
        huge_bound: num(1e20),
    };
    let (row, multiplier) = arithmetic.singleton_rows(&mut model, limits, false).unwrap_err();
    let mut point = arithmetic.row_certificate(&model, row, multiplier);
    arithmetic.recover(&model.tape, &mut point, Recovery::PrimalInfeasibility);
    assert!(value(point.y[n - 1]) < 0.0);
    assert!(value(point.z[0]) > 0.0);
    for (j, column) in columns.iter().enumerate() {
        let sum = column.iter().map(|&(i, a)| a * value(point.y[i])).sum::<f64>();
        assert!((sum + value(point.z[j])).abs() < 1e-12);
        if j != 0 {
            assert_eq!(value(point.z[j]), 0.0);
        }
    }
    assert!(-value(point.y[n - 1]) > 0.0);
}
