use presolve::arithmetic::Arithmetic;
use presolve::number::Real;
use presolve::objective::{Failure, Objective};
use presolve::symmetric::SymmetricMatrix;

type Binary = fn(Real, Real) -> Real;

fn num(x: f64) -> Real {
    Real::from_bits(x.to_bits())
}

fn value(v: Real) -> f64 {
    f64::from_bits(v.to_bits())
}

fn nums(list: &[f64]) -> Vec<Real> {
    list.iter().map(|&x| num(x)).collect()
}

fn values(list: &[Real]) -> Vec<f64> {
    list.iter().map(|&v| value(v)).collect()
}

fn list(entries: &[(usize, f64)]) -> Vec<(usize, Real)> {
    entries.iter().map(|&(j, v)| (j, num(v))).collect()
}

fn plain(entries: &[(usize, Real)]) -> Vec<(usize, f64)> {
    entries.iter().map(|&(j, v)| (j, value(v))).collect()
}

fn arithmetic() -> Arithmetic<Binary, Binary, Binary, Binary> {
    Arithmetic {
        plus: |a, b| num(value(a) + value(b)),
        times: |a, b| num(value(a) * value(b)),
        over: |a, b| num(value(a) / value(b)),
        hypot: |a, b| num(value(a).hypot(value(b))),
    }
}

fn never() -> bool {
    false
}

fn always() -> bool {
    true
}

fn symmetric(n: usize, dense: &[f64]) -> SymmetricMatrix {
    let columns: Vec<Vec<(usize, Real)>> = (0..n)
        .map(|j| {
            (0..=j)
                .filter(|i| dense[i * n + j] != 0.0)
                .map(|i| (i, num(dense[i * n + j])))
                .collect()
        })
        .collect();
    SymmetricMatrix::from_upper_columns(&columns)
}

fn objective(n: usize, dense: &[f64], c: &[f64], constant: f64) -> Objective {
    Objective {
        p: symmetric(n, dense),
        c: nums(c),
        constant: num(constant),
    }
}

fn worth(o: &Objective, x: &[f64]) -> f64 {
    value(o.constant)
        + o.c.iter().zip(x).map(|(c, x)| value(*c) * x).sum::<f64>()
        + 0.5
            * (0..x.len())
                .flat_map(|i| {
                    plain(&o.p.row(i).to_vec())
                        .into_iter()
                        .map(move |(j, a)| a * x[i] * x[j])
                })
                .sum::<f64>()
}

#[test]
fn packed_updates_match_dense_affine_transformations_and_clear_failed_scratch() {
    let n = 6;
    let arithmetic = arithmetic();
    for seed in 0..24 {
        let k = seed % n;
        let dense: Vec<f64> = (0..n)
            .flat_map(|i| {
                (0..n).map(move |j| {
                    (0..3)
                        .map(|r| {
                            (((i + r + seed) % 5) as f64 - 2.) * (((j + r + seed) % 5) as f64 - 2.)
                        })
                        .sum()
                })
            })
            .collect();
        let costs: Vec<f64> = (0..n).map(|j| j as f64 - 2.).collect();
        let mut o = objective(n, &dense, &costs, 3.);
        let slopes: Vec<(usize, f64)> = (0..n)
            .filter(|&j| j != k && (j + seed) % 3 != 0)
            .map(|j| (j, ((j + seed) % 5) as f64 / 2. - 1.))
            .collect();
        let mut transform = vec![vec![0.; n]; n];
        for j in 0..n {
            if j != k {
                transform[j][j] = 1.;
            }
        }
        for &(j, a) in &slopes {
            transform[k][j] = a;
        }
        assert!(arithmetic
            .try_substitute(&mut o, k, num(2.), &list(&slopes), usize::MAX, true, &never)
            .is_ok());
        for j in 0..n {
            let c: f64 = (0..n)
                .map(|a| transform[a][j] * (costs[a] + 2. * dense[a * n + k]))
                .sum();
            assert_eq!(value(o.c[j]), c);
            for l in 0..n {
                let mut expected = 0.;
                for a in 0..n {
                    for b in 0..n {
                        expected += transform[a][j] * dense[a * n + b] * transform[b][l];
                    }
                }
                assert_eq!(value(o.p.get(j, l)), expected);
            }
        }
    }
    let mut o = Objective {
        p: SymmetricMatrix::zeros(n),
        c: nums(&[1.; 6]),
        constant: num(0.),
    };
    o.p.set(0, 0, num(1.));
    let slopes: Vec<(usize, f64)> = (1..n).map(|j| (j, 1.)).collect();
    assert!(matches!(
        arithmetic.try_substitute(&mut o, 0, num(2.), &list(&slopes), 0, true, &never),
        Err(Failure::QuadraticFill)
    ));
    assert_eq!(o.p.nnz(), 1);
    assert!(arithmetic
        .try_substitute(&mut o, 0, num(2.), &list(&slopes), usize::MAX, true, &never)
        .is_ok());
    for j in 1..n {
        for l in 1..n {
            assert_eq!(value(o.p.get(j, l)), 1.);
        }
    }
    assert_eq!(values(&o.c[1..]), [4.; 5]);
    assert_eq!(value(o.constant), 4.);
}

#[test]
fn wide_substitution_skips_zero_quadratic_work_and_rejects_fill_before_constructing_it() {
    let n = 4097;
    let arithmetic = arithmetic();
    let slopes: Vec<(usize, Real)> = (1..n).map(|j| (j, num(1.0))).collect();
    let mut o = Objective {
        p: SymmetricMatrix::zeros(n),
        c: vec![num(0.0); n],
        constant: num(0.0),
    };
    o.c[0] = num(2.0);
    assert!(arithmetic
        .try_substitute(&mut o, 0, num(3.0), &slopes, 0, false, &never)
        .is_ok());
    assert_eq!(value(o.constant), 6.0);
    assert_eq!(o.p.nnz(), 0);
    assert!(o.c[1..].iter().all(|&v| value(v) == 2.0));
    o.p.set(0, 0, num(1.0));
    assert!(arithmetic
        .try_substitute(&mut o, 0, num(0.0), &slopes, 64, false, &never)
        .is_err());
    assert_eq!(o.p.nnz(), 1);
}

#[test]
fn substitution_rejects_net_p_growth_transactionally() {
    let arithmetic = arithmetic();
    for entries in [
        [1.0, 0.0, 0.0, 0.0, 0.0, 0.0, 0.0, 0.0, 1.0],
        [1.0, 0.0, 0.0, 0.0, 1.0, 0.0, 0.0, 0.0, 1.0],
    ] {
        let mut o = objective(3, &entries, &[2.0, 3.0, 4.0], 5.0);
        let original = objective(3, &entries, &[2.0, 3.0, 4.0], 5.0);
        assert!(matches!(
            arithmetic.try_substitute(
                &mut o,
                0,
                num(2.0),
                &list(&[(1, -1.0), (2, -1.0)]),
                64,
                false,
                &never
            ),
            Err(Failure::HessianGrowth)
        ));
        assert_eq!(values(&o.c), values(&original.c));
        assert_eq!(value(o.constant), value(original.constant));
        for i in 0..3 {
            assert_eq!(plain(&o.p.row(i).to_vec()), plain(&original.p.row(i).to_vec()));
            assert_eq!(
                plain(&o.p.column(i).to_vec()),
                plain(&original.p.column(i).to_vec())
            );
        }
    }
}

#[test]
fn permitted_growth_preserves_the_objective_and_deadlines_are_transactional() {
    let arithmetic = arithmetic();
    let entries = [2., 1., 0., 1., 2., 0., 0., 0., 1.];
    let mut o = objective(3, &entries, &[2., 3., 4.], 5.);
    let original = objective(3, &entries, &[2., 3., 4.], 5.);
    assert!(arithmetic
        .try_substitute(
            &mut o,
            0,
            num(2.),
            &list(&[(1, -1.), (2, -1.)]),
            usize::MAX,
            true,
            &never
        )
        .is_ok());
    for y in [-2., 0., 3.] {
        for z in [-3., 0., 2.] {
            assert!((worth(&original, &[2. - y - z, y, z]) - worth(&o, &[0., y, z])).abs() < 1e-10);
        }
    }
    let mut wide = Objective {
        p: SymmetricMatrix::zeros(65),
        c: vec![num(1.); 65],
        constant: num(7.),
    };
    wide.p.set(0, 0, num(1.));
    let slopes: Vec<(usize, Real)> = (1..65).map(|j| (j, num(1.))).collect();
    assert!(matches!(
        arithmetic.try_substitute(&mut wide, 0, num(2.), &slopes, usize::MAX, true, &always),
        Err(Failure::Deadline)
    ));
    assert_eq!(wide.p.nnz(), 1);
    assert_eq!(value(wide.p.get(0, 0)), 1.);
    assert_eq!(values(&wide.c), vec![1.; 65]);
    assert_eq!(value(wide.constant), 7.);
}

#[test]
fn substitution_allows_new_positions_without_net_p_growth() {
    let arithmetic = arithmetic();
    for (entries, slopes, expected_nnz) in [
        (
            [1.0, 0.0, 0.0, 0.0, 0.0, 0.0, 0.0, 0.0, 0.0],
            vec![(1, 1.0)],
            1,
        ),
        (
            [4.0, 1.0, 1.0, 1.0, 2.0, 0.0, 1.0, 0.0, 2.0],
            vec![(1, -1.0), (2, -1.0)],
            4,
        ),
    ] {
        let mut o = objective(3, &entries, &[2.0, 3.0, 4.0], 5.0);
        let original = objective(3, &entries, &[2.0, 3.0, 4.0], 5.0);
        assert!(arithmetic
            .try_substitute(&mut o, 0, num(2.0), &list(&slopes), 64, false, &never)
            .is_ok());
        assert_eq!(o.p.nnz(), expected_nnz);
        assert!(o.p.nnz() <= original.p.nnz());
        for y in [-2.0, 0.0, 3.0] {
            for z in [-1.0, 0.0, 4.0] {
                let mut x = [0.0, y, z];
                x[0] = 2.0 + slopes.iter().map(|&(j, v)| v * x[j]).sum::<f64>();
                assert_eq!(worth(&original, &x), worth(&o, &[0.0, y, z]));
            }
        }
    }
}

#[test]
fn cancellation_of_existing_entries_can_pay_for_new_entries() {
    let mut o = Objective {
        p: SymmetricMatrix::zeros(4),
        c: nums(&[0.0; 4]),
        constant: num(0.0),
    };
    for i in 0..2 {
        for j in 0..2 {
            o.p.set(i, j, num(1.0));
        }
    }
    assert!(arithmetic()
        .try_substitute(
            &mut o,
            0,
            num(0.0),
            &list(&[(1, -1.0), (2, 1.0), (3, 1.0)]),
            64,
            false,
            &never
        )
        .is_ok());
    assert_eq!(o.p.nnz(), 4);
    assert!(o.p.row(1).is_empty());
    for i in 2..4 {
        for j in 2..4 {
            assert_eq!(value(o.p.get(i, j)), 1.0);
        }
    }
}

#[test]
fn substitution_allows_exact_cancellation_at_a_missing_entry() {
    let entries = [4.0, -1.0, -1.0, -1.0, 2.0, 0.0, -1.0, 0.0, 2.0];
    let mut o = objective(3, &entries, &[2.0, 3.0, 4.0], 5.0);
    let original = objective(3, &entries, &[2.0, 3.0, 4.0], 5.0);
    assert!(arithmetic()
        .try_substitute(
            &mut o,
            0,
            num(2.0),
            &list(&[(1, 0.5), (2, 0.5)]),
            64,
            false,
            &never
        )
        .is_ok());
    assert_eq!(o.p.nnz(), 2);
    assert_eq!(value(o.p.get(1, 2)), 0.0);
    for y in [-2.0, 0.0, 3.0] {
        for z in [-1.0, 0.0, 4.0] {
            assert_eq!(
                worth(&original, &[2.0 + 0.5 * y + 0.5 * z, y, z]),
                worth(&o, &[0.0, y, z])
            );
        }
    }
}
