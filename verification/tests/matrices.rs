use presolve::linked::LinkedMatrix;
use presolve::number::Real;
use presolve::symmetric::SymmetricMatrix;

fn num(x: f64) -> Real {
    Real::from_bits(x.to_bits())
}

fn list(entries: &[(usize, f64)]) -> Vec<(usize, Real)> {
    entries.iter().map(|&(j, v)| (j, num(v))).collect()
}

fn plain(entries: &[(usize, Real)]) -> Vec<(usize, f64)> {
    entries
        .iter()
        .map(|&(j, v)| (j, f64::from_bits(v.to_bits())))
        .collect()
}

fn value(v: Real) -> f64 {
    f64::from_bits(v.to_bits())
}

#[test]
fn row_replacement_retains_live_nodes_and_returns_original_coefficients() {
    let mut a = LinkedMatrix::zeros(3, 5);
    for i in 0..3 {
        for j in [0, 2, 4] {
            a.set(i, j, num(1.0));
        }
    }
    assert_eq!(
        plain(&a.replace_row(1, &list(&[(1, 3.0), (2, 4.0), (3, 5.0)]))),
        [(0, 1.0), (2, 1.0), (4, 1.0)]
    );
    assert_eq!(plain(&a.column(2).to_vec()), [(0, 1.0), (1, 4.0), (2, 1.0)]);
    assert_eq!(plain(&a.remove_row(1)), [(1, 3.0), (2, 4.0), (3, 5.0)]);
    a.replace_row(1, &list(&[(0, 7.0), (2, 8.0), (4, 9.0)]));
    assert_eq!(plain(&a.column(2).to_vec()), [(0, 1.0), (1, 8.0), (2, 1.0)]);
}

#[test]
fn linked_mutations_match_dense_storage_and_recycle_nodes() {
    let mut a = LinkedMatrix::zeros(13, 17);
    let mut dense = [[0.0; 17]; 13];
    let mut seed = 3123u64;
    for step in 0..1000 {
        seed = seed.wrapping_mul(6364136223846793005).wrapping_add(1);
        let row = (seed >> 32) as usize % 13;
        let col = (seed >> 16) as usize % 17;
        let v = (seed % 7) as f64 - 3.0;
        match step % 11 {
            0 => {
                a.remove_row(row);
                dense[row].fill(0.0);
            }
            1 => {
                a.remove_column(col);
                for row in &mut dense {
                    row[col] = 0.0;
                }
            }
            2 => {
                let next = (row + 1) % 13;
                let entries = list(&[(col, 2.0)]);
                let touched = a.replace_rows(&vec![(row, entries.clone()), (next, entries)]);
                assert!(touched.windows(2).all(|w| w[0] < w[1]));
                dense[row].fill(0.0);
                dense[row][col] = 2.0;
                dense[next].fill(0.0);
                dense[next][col] = 2.0;
            }
            3 => {
                let old = plain(&a.row(row).to_vec());
                assert_eq!(plain(&a.replace_row(row, &list(&[(col, 2.0)]))), old);
                dense[row].fill(0.0);
                dense[row][col] = 2.0;
            }
            _ => {
                a.set(row, col, num(v));
                dense[row][col] = v;
            }
        }
        let mut count = 0;
        for (i, row) in dense.iter().enumerate() {
            let expected: Vec<(usize, f64)> = row
                .iter()
                .enumerate()
                .filter_map(|(j, &v)| if v != 0.0 { Some((j, v)) } else { None })
                .collect();
            assert_eq!(plain(&a.row(i).to_vec()), expected);
            count += expected.len();
            for (j, &v) in row.iter().enumerate() {
                assert_eq!(value(a.get(i, j)), v);
            }
        }
        for j in 0..17 {
            let expected: Vec<(usize, f64)> = dense
                .iter()
                .enumerate()
                .filter_map(|(i, row)| if row[j] != 0.0 { Some((i, row[j])) } else { None })
                .collect();
            assert_eq!(plain(&a.column(j).to_vec()), expected);
        }
        assert_eq!(a.nnz(), count);
    }
}

#[test]
fn shared_coefficients_survive_recycling_compaction_and_packing() {
    let n = 80;
    let columns: Vec<Vec<(usize, Real)>> = (0..n)
        .map(|j| (0..=j).map(|i| (i, num((1 + i + j) as f64))).collect())
        .collect();
    let mut p = SymmetricMatrix::from_upper_columns(&columns);
    assert_eq!(p.coefficient_slots(), n * (n - 1) / 2);
    for i in 0..60 {
        p.remove_variable(i);
    }
    assert!(p.coefficient_slots() < n * (n - 1) / 4);
    for j in 0..n {
        p.set(0, j, num(-(j as f64) - 1.0));
        p.set(j, 0, num(-(j as f64) - 2.0));
    }
    let active: Vec<usize> = std::iter::once(0).chain(60..n).collect();
    for j in 1..60 {
        p.remove_variable(j);
    }
    let mut count = 0;
    for &old in &active {
        let full = plain(&p.row(old).to_vec());
        assert!(full.windows(2).all(|pair| pair[0].0 < pair[1].0));
        assert_eq!(p.row(old).len(), full.len());
        for &(j, v) in &full {
            assert_eq!(value(p.get(j, old)), v);
            let expected = if j == 0 || old == 0 {
                -(j.max(old) as f64) - 2.0
            } else {
                (1 + j + old) as f64
            };
            assert_eq!(v, expected);
        }
        count += full.len();
    }
    assert_eq!(p.nnz(), count);
    let coefficients = p.coefficient_slots();
    p.set(0, 79, num(42.0));
    assert_eq!(value(p.get(79, 0)), 42.0);
    assert_eq!(p.coefficient_slots(), coefficients);
}

#[test]
fn diagonal_only_storage_and_iterator_tails() {
    let mut p = SymmetricMatrix::zeros(4);
    for j in 0..4 {
        p.set(j, j, num((j + 1) as f64));
    }
    assert_eq!(p.coefficient_slots(), 0);
    p.set(1, 0, num(3.0));
    p.set(1, 3, num(5.0));
    assert_eq!(p.row(1).len(), 3);
    assert_eq!(plain(&p.row(1).to_vec()), [(0, 3.0), (1, 2.0), (3, 5.0)]);
    assert_eq!(p.add_variable(), 4);
    p.set(4, 4, num(7.0));
    assert_eq!(plain(&p.row(4).to_vec()), [(4, 7.0)]);
}

#[test]
fn symmetric_views_survive_fill_cancellation_removal_and_growth() {
    let mut p = SymmetricMatrix::zeros(3);
    p.set(0, 0, num(2.0));
    p.set(0, 2, num(3.0));
    p.set(1, 0, num(-4.0));
    p.set(1, 1, num(5.0));
    p.set(0, 1, num(0.0));
    p.set(1, 2, num(6.0));
    assert_eq!(p.nnz(), 6);
    assert_eq!(plain(&p.row(0).to_vec()), [(0, 2.0), (2, 3.0)]);
    assert_eq!(plain(&p.column(2).to_vec()), [(0, 3.0), (1, 6.0)]);
    assert_eq!(plain(&p.row(2).to_vec()), plain(&p.column(2).to_vec()));
    let revision = p.revision();
    p.set(2, 0, num(3.0));
    assert_eq!(p.revision(), revision);
    assert_eq!(plain(&p.row(2).to_vec()), [(0, 3.0), (1, 6.0)]);
    p.remove_variable(2);
    assert_eq!(p.nnz(), 2);
    assert_eq!(plain(&p.row(0).to_vec()), [(0, 2.0)]);
    p.remove_variable(0);
    assert_eq!(p.nnz(), 1);
    assert_eq!(p.add_variable(), 3);
    p.set(0, 3, num(7.0));
    assert_eq!(plain(&p.row(3).to_vec()), [(0, 7.0)]);
    assert_eq!(p.nnz(), 3);
    p.remove_variable(3);
    assert_eq!(p.nnz(), 1);
}

#[test]
fn upper_triangle_builds_sorted_full_adjacency_without_duplicate_payloads() {
    let columns = vec![
        list(&[(0, 2.0)]),
        list(&[(0, -1.0)]),
        list(&[(0, 0.0), (1, 3.0), (2, 4.0)]),
    ];
    let p = SymmetricMatrix::from_upper_columns(&columns);
    assert_eq!(plain(&p.row(0).to_vec()), [(0, 2.0), (1, -1.0)]);
    assert_eq!(plain(&p.row(1).to_vec()), [(0, -1.0), (2, 3.0)]);
    assert_eq!(plain(&p.row(2).to_vec()), [(1, 3.0), (2, 4.0)]);
    assert_eq!(p.nnz(), 6);
    assert_eq!(p.revision(), 0);
}

#[test]
fn arena_growth_and_compaction_match_a_dense_reference() {
    let n = 40;
    let mut p = SymmetricMatrix::zeros(n);
    let mut dense = vec![vec![0.0; n]; n];
    let mut seed = 77u64;
    for step in 0..6000 {
        seed = seed
            .wrapping_mul(6364136223846793005)
            .wrapping_add(1442695040888963407);
        let i = (seed >> 33) as usize % n;
        let j = (seed >> 13) as usize % n;
        let v = ((seed >> 40) % 5) as f64 - 2.0;
        if step % 97 == 0 {
            p.remove_variable(i);
            dense[i].fill(0.0);
            for row in &mut dense {
                row[i] = 0.0;
            }
        } else {
            p.set(i, j, num(v));
            dense[i][j] = v;
            dense[j][i] = v;
        }
        let mut count = 0;
        for (i, row) in dense.iter().enumerate() {
            let expected: Vec<(usize, f64)> = row
                .iter()
                .enumerate()
                .filter_map(|(j, &v)| if v != 0.0 { Some((j, v)) } else { None })
                .collect();
            assert_eq!(plain(&p.row(i).to_vec()), expected);
            count += expected.len();
        }
        assert_eq!(p.nnz(), count);
    }
}
