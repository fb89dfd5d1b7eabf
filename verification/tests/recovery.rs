use presolve::arithmetic::Arithmetic;
use presolve::bounds::{Bounds, Side};
use presolve::number::Real;
use presolve::postsolve::{Coordinates, Postsolve, PrimalCertificate, Solution};
use presolve::tape::{Equation, Gradient, Point, Recovery, Rule};

type Binary = fn(Real, Real) -> Real;

fn num(x: f64) -> Real {
    Real::from_bits(x.to_bits())
}

fn value(v: Real) -> f64 {
    f64::from_bits(v.to_bits())
}

fn nums(list: &[f64]) -> Vec<Real> {
    list.iter().map(|&x| num(x)).collect()
}

fn values(list: &[Real]) -> Vec<f64> {
    list.iter().map(|&v| value(v)).collect()
}

fn list(entries: &[(usize, f64)]) -> Vec<(usize, Real)> {
    entries.iter().map(|&(j, v)| (j, num(v))).collect()
}

fn arithmetic() -> Arithmetic<Binary, Binary, Binary, Binary> {
    Arithmetic {
        plus: |a, b| num(value(a) + value(b)),
        times: |a, b| num(value(a) * value(b)),
        over: |a, b| num(value(a) / value(b)),
        hypot: |a, b| num(value(a).hypot(value(b))),
    }
}

fn interval(lower: f64, upper: f64) -> Bounds {
    Bounds {
        lower: num(lower),
        upper: num(upper),
    }
}

fn point(x: &[f64], y: &[f64], z: &[f64]) -> Point {
    Point {
        x: nums(x),
        y: nums(y),
        z: nums(z),
    }
}

#[test]
fn inactive_bound_multipliers_are_transferred_for_interior_point_iterates() {
    let rules = vec![
        Rule::TightenedBound {
            column: 1,
            side: Side::Upper,
            old: num(f64::INFINITY),
            equation: Equation {
                row: 1,
                entries: list(&[(1, -2.0)]),
                bounds: interval(-4.0, f64::INFINITY),
            },
        },
        Rule::DeletedRow(1),
        Rule::TightenedBound {
            column: 0,
            side: Side::Lower,
            old: num(f64::NEG_INFINITY),
            equation: Equation {
                row: 0,
                entries: list(&[(0, 1.0), (1, 2.0)]),
                bounds: interval(5.0, f64::INFINITY),
            },
        },
    ];
    let mut p = point(&[1.0 + 3e-4, 2.0 - 1e-4], &[0.0; 2], &[1e-4, 0.0]);
    let complementarity = (value(p.x[0]) - 1.0) * value(p.z[0]);
    arithmetic().recover(&rules, &mut p, Recovery::Solution);
    let (x, y, z) = (values(&p.x), values(&p.y), values(&p.z));
    assert_eq!(z, [0.0, 0.0]);
    assert_eq!(y, [1e-4, 1e-4]);
    assert_eq!(2.0 * y[0] - 2.0 * y[1], 0.0);
    let recovered = (x[0] + 2.0 * x[1] - 5.0) * y[0] + (4.0 - 2.0 * x[1]) * y[1];
    assert!((recovered - complementarity).abs() < 1e-18);
}

#[test]
fn coupled_substitution_recovers_stationarity_with_a_retained_bound() {
    let rules = vec![Rule::Substituted {
        column: 0,
        equation: Equation {
            row: 0,
            entries: list(&[(0, 1.0), (1, 2.0)]),
            bounds: interval(5.0, 5.0),
        },
        gradient: Gradient {
            constant: num(0.0),
            terms: list(&[(0, 2.0), (1, 1.0)]),
        },
        other_rows: vec![],
        retained: true,
    }];
    let mut p = point(&[0.0, 2.0], &[-4.5], &[0.0, 0.0]);
    arithmetic().recover(&rules, &mut p, Recovery::Solution);
    let (x, y, z) = (values(&p.x), values(&p.y), values(&p.z));
    assert_eq!(x, [1.0, 2.0]);
    assert_eq!(y, [-0.5]);
    assert_eq!(z, [4.5, 0.0]);
    assert_eq!(2.0 * x[0] + x[1], y[0] + z[0]);
    assert_eq!(x[0] + 4.0 * x[1] - 10.0, 2.0 * y[0] + z[1]);
}

#[test]
fn propagated_bounds_restore_farkas_multipliers_without_a_primal_point() {
    let rules = vec![Rule::TightenedBound {
        column: 0,
        side: Side::Lower,
        old: num(f64::NEG_INFINITY),
        equation: Equation {
            row: 0,
            entries: list(&[(0, 1.0), (1, 2.0)]),
            bounds: interval(5.0, f64::INFINITY),
        },
    }];
    let mut p = point(&[f64::NAN; 2], &[0.0], &[3.0, 0.0]);
    arithmetic().recover(&rules, &mut p, Recovery::PrimalInfeasibility);
    assert_eq!(values(&p.y), [3.0]);
    assert_eq!(values(&p.z), [0.0, -6.0]);
}

#[test]
fn aggregation_recovers_solution_and_recession_bounds_for_both_signs() {
    for ratio in [-2.0, 2.0] {
        let bounds = interval(1.0, f64::INFINITY);
        let rules = vec![Rule::ParallelColumns {
            keep: 0,
            removed: 1,
            ratio: num(ratio),
            keep_bounds: bounds,
            removed_bounds: bounds,
        }];
        let mut p = point(&[3.0 + ratio * 2.0, 0.0], &[], &[0.0; 2]);
        arithmetic().recover(&rules, &mut p, Recovery::Solution);
        assert!(p.x.iter().all(|&x| bounds.contains(x)));
        let x = values(&p.x);
        assert_eq!(x[0] + ratio * x[1], 3.0 + ratio * 2.0);
        let mut p = point(&[ratio, 0.0], &[], &[0.0; 2]);
        arithmetic().recover(&rules, &mut p, Recovery::DualInfeasibility);
        let x = values(&p.x);
        assert!(x.iter().all(|&x| x >= 0.0));
        assert_eq!(x[0] + ratio * x[1], ratio);
    }
}

#[test]
fn cone_slacks_are_recovered_before_earlier_variable_aggregation() {
    let rules = vec![
        Rule::ParallelColumns {
            keep: 0,
            removed: 1,
            ratio: num(2.),
            keep_bounds: Bounds::free(),
            removed_bounds: Bounds::free(),
        },
        Rule::ConeSlack {
            row: 0,
            rhs: num(5.),
            entries: list(&[(0, 3.)]),
        },
    ];
    let mut p = point(&[7., 0.], &[0.], &[0.; 2]);
    let mut slacks = nums(&[0.]);
    arithmetic().recover_with_slacks(&rules, &mut p, Recovery::Solution, &mut slacks);
    let (x, s) = (values(&p.x), values(&slacks));
    assert_eq!(x[0] + 2. * x[1], 7.);
    assert_eq!(s[0], 5. - 3. * x[0] - 6. * x[1]);
    assert_eq!(s, [-16.]);
}

#[test]
fn recovery_preserves_coordinate_order_and_dual_signs_with_reused_buffers() {
    let arithmetic = arithmetic();
    let postsolve = Postsolve {
        rules: vec![],
        coordinates: Coordinates {
            columns: vec![0, 2],
            linear_rows: vec![2, 0],
            conic_rows: vec![3, 1],
        },
        input_linear: vec![0, 2],
        input_conic: vec![1, 3],
        total_columns: 3,
        total_rows: 4,
        original_columns: 3,
        direct_slacks: vec![(1, 0), (0, 1)],
    };
    let given = Solution {
        x: nums(&[10., 30.]),
        y: nums(&[3., 1.]),
        z: nums(&[4., 6.]),
        conic_dual: nums(&[7., 8.]),
        conic_slack: nums(&[9., 10.]),
    };
    let mut work = postsolve.workspace();
    work.point.x.fill(num(99.));
    work.point.y.fill(num(99.));
    work.point.z.fill(num(99.));
    work.slacks.fill(num(99.));
    let out = postsolve.recover_into(&given, &mut work, &arithmetic);
    assert_eq!(values(&out.x), [10., 0., 30.]);
    assert_eq!(values(&out.y), [1., 3.]);
    assert_eq!(values(&out.z), [4., 0., 6.]);
    assert_eq!(values(&out.conic_dual), [8., 7.]);
    assert_eq!(values(&out.conic_slack), [10., 9.]);
    let certificate = postsolve.recover_primal_certificate(
        PrimalCertificate {
            y: given.y.clone(),
            z: given.z.clone(),
            conic_dual: given.conic_dual.clone(),
        },
        &arithmetic,
    );
    assert_eq!(values(&certificate.y), values(&out.y));
    assert_eq!(values(&certificate.z), values(&out.z));
    assert_eq!(values(&certificate.conic_dual), values(&out.conic_dual));
    assert_eq!(
        values(&postsolve.recover_primal_ray(given.x.clone(), &arithmetic)),
        values(&out.x)
    );
    let reduced = postsolve.reduce_warm_start(&out, &arithmetic);
    assert_eq!(values(&reduced.x), values(&given.x));
    assert_eq!(values(&reduced.y), values(&given.y));
    assert_eq!(values(&reduced.z), values(&given.z));
    assert_eq!(values(&reduced.conic_dual), values(&given.conic_dual));
    assert_eq!(values(&reduced.conic_slack), values(&given.conic_slack));
}
