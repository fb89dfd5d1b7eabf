use presolve::activity::{Activity, Extreme};
use presolve::arithmetic::Arithmetic;
use presolve::bounds::{Bounds, Locks, RowDomain};
use presolve::number::Real;

type Binary = fn(Real, Real) -> Real;

fn num(x: f64) -> Real {
    Real::from_bits(x.to_bits())
}

fn value(v: Real) -> f64 {
    f64::from_bits(v.to_bits())
}

fn list(entries: &[(usize, f64)]) -> Vec<(usize, Real)> {
    entries.iter().map(|&(j, v)| (j, num(v))).collect()
}

fn arithmetic() -> Arithmetic<Binary, Binary, Binary, Binary> {
    Arithmetic {
        plus: |a, b| num(value(a) + value(b)),
        times: |a, b| num(value(a) * value(b)),
        over: |a, b| num(value(a) / value(b)),
        hypot: |a, b| num(value(a).hypot(value(b))),
    }
}

fn interval(lower: f64, upper: f64) -> Bounds {
    Bounds {
        lower: num(lower),
        upper: num(upper),
    }
}

fn shown(v: Option<Real>) -> Option<f64> {
    v.map(value)
}

#[test]
fn activity_incremental_updates_handle_infinity_and_request_recomputation_after_cancellation() {
    let arithmetic = arithmetic();
    let extreme = Extreme {
        sum: num(3.0),
        infinite: 1,
    };
    let (extreme, good) = arithmetic.replace(extreme, num(f64::INFINITY), num(4.0));
    assert!(good);
    assert_eq!(shown(extreme.value()), Some(7.0));
    let (extreme, good) = arithmetic.replace(extreme, num(4.0), num(5.0));
    assert!(good);
    assert_eq!(shown(extreme.value()), Some(8.0));
    let lost = Extreme {
        sum: num(1e20),
        infinite: 0,
    };
    assert!(!arithmetic.replace(lost, num(1e20), num(1.0)).1);
}

#[test]
fn activity_residual_activities_handle_infinite_terms_and_cancellation() {
    let arithmetic = arithmetic();
    let bounds = vec![interval(2.0, f64::INFINITY), interval(3.0, 4.0)];
    let act = arithmetic.activity_of(&list(&[(0, 2.0), (1, -1.0)]), &bounds, None);
    assert_eq!(shown(act.min.value()), Some(0.0));
    assert_eq!(shown(act.max.value()), None);
    assert_eq!(
        shown(arithmetic.excluding(act.max, num(f64::INFINITY))),
        Some(-3.0)
    );
    let lost = Extreme {
        sum: num(1e20),
        infinite: 0,
    };
    assert_eq!(shown(arithmetic.excluding(lost, num(1e20))), None);
    assert_eq!(
        Locks::contribution(num(-2.0), RowDomain::Linear(interval(0.0, f64::INFINITY))),
        Locks { up: 1, down: 0 }
    );
}

#[test]
fn paired_extremes_match_scalar_bits() {
    let arithmetic = arithmetic();
    let mut seed = 23781882u64;
    let mut next = || {
        seed ^= seed << 13;
        seed ^= seed >> 7;
        seed ^= seed << 17;
        seed
    };
    for case in 0..3000 {
        let n = case % 2048;
        let mut row = Vec::with_capacity(n);
        let mut bounds = Vec::with_capacity(n);
        let (mut min_sum, mut max_sum) = (0.0f64, 0.0f64);
        let (mut min_infinite, mut max_infinite) = (0usize, 0usize);
        for j in 0..n {
            let values = [
                -f64::INFINITY,
                -f64::MAX,
                -1e200,
                -1e-200,
                -1.0,
                -0.0,
                0.0,
                1e-200,
                1.0,
                1e200,
                f64::MAX,
                f64::INFINITY,
            ];
            let x = values[next() as usize % values.len()];
            let y = values[next() as usize % values.len()];
            let b = (x.min(y), x.max(y));
            let coeffs = [
                -f64::MAX,
                -1e200,
                -1e-200,
                -1.0,
                -f64::MIN_POSITIVE,
                f64::MIN_POSITIVE,
                1e-200,
                1.0,
                1e200,
                f64::MAX,
            ];
            let a = coeffs[next() as usize % coeffs.len()];
            row.push((j, num(a)));
            bounds.push(interval(b.0, b.1));
            let (min, max) = if a > 0.0 {
                (a * b.0, a * b.1)
            } else {
                (a * b.1, a * b.0)
            };
            if min.is_finite() {
                min_sum += min;
            } else {
                min_sum += 0.0;
                min_infinite += 1;
            }
            if max.is_finite() {
                max_sum += max;
            } else {
                max_sum += 0.0;
                max_infinite += 1;
            }
        }
        let paired = arithmetic.activity_of(&row, &bounds, None);
        assert_eq!(
            (
                paired.min.sum.to_bits(),
                paired.min.infinite,
                paired.max.sum.to_bits(),
                paired.max.infinite
            ),
            (
                min_sum.to_bits(),
                min_infinite,
                max_sum.to_bits(),
                max_infinite
            )
        );
    }
}

#[test]
fn single_bound_updates_match_the_two_extreme_reference() {
    let arithmetic = arithmetic();
    let infinite = f64::INFINITY;
    let domains = [
        interval(-infinite, infinite),
        interval(0., 0.),
        interval(1., 1.),
        interval(0., infinite),
        interval(-infinite, 0.),
        interval(-2., 3.),
        interval(-2., 4.),
        interval(-1., 3.),
        interval(-f64::MAX, f64::MAX),
    ];
    for a in [
        -f64::MAX,
        -2.,
        -f64::MIN_POSITIVE,
        f64::MIN_POSITIVE,
        2.,
        f64::MAX,
    ] {
        for old in domains {
            for new in domains {
                let initial: Activity = arithmetic.activity_of(
                    &list(&[(0, a), (1, 1.)]),
                    &vec![old, interval(1e300, 1e300)],
                    None,
                );
                let (low, first) = arithmetic.replace(
                    initial.min,
                    arithmetic.term_of(num(a), old, false),
                    arithmetic.term_of(num(a), new, false),
                );
                let (high, second) = arithmetic.replace(
                    initial.max,
                    arithmetic.term_of(num(a), old, true),
                    arithmetic.term_of(num(a), new, true),
                );
                let expected = first && second;
                let (actual, good) = arithmetic.replace_bound(initial, num(a), old, new);
                assert_eq!(good, expected);
                if expected {
                    assert_eq!(actual.min.sum.to_bits(), low.sum.to_bits());
                    assert_eq!(actual.max.sum.to_bits(), high.sum.to_bits());
                    assert_eq!(actual.min.infinite, low.infinite);
                    assert_eq!(actual.max.infinite, high.infinite);
                }
            }
        }
    }
}
