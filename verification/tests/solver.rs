use simplex_solver::matrix::check_inverse;
use simplex_solver::matrix::dot;
use simplex_solver::matrix::get_col;
use simplex_solver::matrix::select_columns;
use simplex_solver::matrix::select_entries;
use simplex_solver::matrix::Matrix;
use simplex_solver::rat::Rat;
use simplex_solver::simplex::get_reduced_costs;
use simplex_solver::simplex::primal_simplex;
use simplex_solver::simplex::Matrices;
use simplex_solver::simplex::SolveOutcome;
use simplex_solver::simplex::SolveStatus;
use simplex_solver::simplex::SolverConfig;

fn mat(rows: Vec<Vec<i64>>, cols: usize) -> Matrix {
    Matrix::from_ints(&rows, cols).expect("rectangular integer matrix")
}

fn vec_rat(vals: Vec<i64>) -> Vec<Rat> {
    vals.into_iter().map(Rat::from_int).collect()
}

fn small_example() -> Matrices {
    Matrices {
        a: mat(
            vec![
                vec![5, 2, 5, 10, 1, 0, 0],
                vec![10, 0, 3, 1, 0, 1, 0],
                vec![1, 1, 1, 2, 0, 0, 1],
            ],
            7,
        ),
        b: vec_rat(vec![10, 12, 25]),
        c: vec_rat(vec![1, 1, 1, 1, 0, 0, 0]),
        sol: vec![1, 5, 6],
    }
}

fn solve(m: &Matrices, max_iterations: i32) -> SolveOutcome {
    primal_simplex(&m.a, &m.b, &m.c, max_iterations, &SolverConfig::default())
}

#[test]
fn test_small_example() {
    let m = small_example();
    let out = solve(&m, 10000);
    assert!(matches!(out.status, SolveStatus::Optimal));
    let mut basis = out.basis_indices.clone();
    basis.sort();
    assert_eq!(basis, m.sol, "Small test failed");
}

#[test]
fn test_determinism_repeated_solves() {
    let m = small_example();
    let first = solve(&m, 10000);
    let second = solve(&m, 10000);
    assert_eq!(first.basis_indices, second.basis_indices);
    assert_eq!(first.non_basis_indices, second.non_basis_indices);
    assert!(matches!(first.status, SolveStatus::Optimal));
    assert!(matches!(second.status, SolveStatus::Optimal));
}

#[test]
fn test_partition_invariant() {
    let m = small_example();
    for budget in [0, 1, 2, 10000] {
        let out = solve(&m, budget);
        let mut seen = vec![false; 7];
        assert_eq!(out.basis_indices.len(), 3);
        assert_eq!(out.non_basis_indices.len(), 4);
        for &i in out.basis_indices.iter().chain(out.non_basis_indices.iter()) {
            assert!(i < 7);
            assert!(!seen[i], "index {} appears twice", i);
            seen[i] = true;
        }
        assert!(seen.iter().all(|&s| s));
    }
}

#[test]
fn test_inverse_consistency() {
    let m = small_example();
    for budget in [1, 2, 10000] {
        let out = solve(&m, budget);
        let inv = out.basis_inverse.as_ref().expect("inverse present");
        assert_eq!(
            check_inverse(inv, &m.a, &out.basis_indices),
            Some(true),
            "basis inverse is not exact after budget {}",
            budget
        );
    }
}

#[test]
fn test_optimality_certificate() {
    let m = small_example();
    let out = solve(&m, 10000);
    assert!(matches!(out.status, SolveStatus::Optimal));
    let inv = out.basis_inverse.as_ref().expect("inverse present");
    let nbm = select_columns(&m.a, &out.non_basis_indices);
    let cb = select_entries(&m.c, &out.basis_indices);
    let cn = select_entries(&m.c, &out.non_basis_indices);
    let rc = get_reduced_costs(&cb, &cn, inv, &nbm).expect("no overflow");
    let zero = Rat::from_int(0);
    for r in &rc {
        assert!(!r.lt(&zero), "negative reduced cost at optimum");
    }
    // Basic reduced costs are exactly zero: cb * inv * A[:, basis] == cb.
    let mut y: Vec<Rat> = Vec::new();
    for k in 0..3 {
        let col = get_col(inv, k);
        y.push(dot(&cb, &col).expect("no overflow"));
    }
    for (i, &bi) in out.basis_indices.iter().enumerate() {
        let col = get_col(&m.a, bi);
        let v = dot(&y, &col).expect("no overflow");
        assert!(v.eq_value(&cb[i]), "basic reduced cost not zero");
    }
}

#[test]
fn test_degenerate_ratio_tie() {
    // Two rows with identical ratios for the entering column; the first
    // minimum in iteration order must leave, deterministically.
    let a = mat(vec![vec![1, 0, 1, 0], vec![1, 0, 0, 1]], 4);
    let b = vec_rat(vec![5, 5]);
    let c = vec_rat(vec![1, 0, 0, 0]);
    let out = primal_simplex(&a, &b, &c, 10000, &SolverConfig::default());
    assert!(matches!(out.status, SolveStatus::Optimal));
    assert_eq!(out.basis_indices, vec![0, 3]);
    let again = primal_simplex(&a, &b, &c, 10000, &SolverConfig::default());
    assert_eq!(again.basis_indices, vec![0, 3]);
}

#[test]
fn test_budget_exhaustion() {
    let m = small_example();
    let out = solve(&m, 0);
    assert!(matches!(out.status, SolveStatus::MaxIterationsReached));
    assert_eq!(out.basis_indices, vec![4, 5, 6]);
    assert_eq!(out.non_basis_indices, vec![0, 1, 2, 3]);
}

#[test]
fn test_singular_input() {
    // The trailing basis columns are linearly dependent.
    let a = mat(vec![vec![1, 2], vec![2, 4]], 2);
    let b = vec_rat(vec![1, 2]);
    let c = vec_rat(vec![1, 1]);
    let out = primal_simplex(&a, &b, &c, 100, &SolverConfig::default());
    assert!(matches!(out.status, SolveStatus::Singular));
    assert!(out.basis_indices.is_empty());
    assert!(out.non_basis_indices.is_empty());
    assert!(out.basis_inverse.is_none());
}

#[test]
fn test_unbounded_detection() {
    // Column 0 improves the objective but its transformed column is
    // non-positive everywhere, so no ratio-test row is eligible.
    let a = mat(vec![vec![-1, 1]], 2);
    let b = vec_rat(vec![1]);
    let c = vec_rat(vec![1, 0]);
    let out = primal_simplex(&a, &b, &c, 100, &SolverConfig::default());
    assert!(matches!(out.status, SolveStatus::Unbounded));
    assert_eq!(out.basis_indices, vec![1]);
}

#[test]
fn test_negative_iteration_budget() {
    let m = small_example();
    let out = solve(&m, -5);
    assert!(matches!(out.status, SolveStatus::MaxIterationsReached));
    assert_eq!(out.basis_indices, vec![4, 5, 6]);
}

#[test]
fn test_try_inverse_singular_certified() {
    let m = mat(vec![vec![1, 2], vec![2, 4]], 2);
    let r = simplex_solver::simplex::try_inverse(&m);
    assert!(matches!(r, Ok(None)));
}

#[test]
fn test_try_inverse_exact() {
    let m = mat(vec![vec![2, 0], vec![1, 4]], 2);
    let inv = simplex_solver::simplex::try_inverse(&m)
        .expect("no overflow")
        .expect("invertible");
    // inverse of [[2,0],[1,4]] is [[1/2, 0], [-1/8, 1/4]]
    let expect = [[(1i64, 2i64), (0, 1)], [(-1, 8), (1, 4)]];
    for i in 0..2 {
        for j in 0..2 {
            let e = inv.at(i, j);
            assert_eq!((e.num(), e.den()), expect[i][j]);
        }
    }
    assert_eq!(
        check_inverse(&inv, &m, &vec![0, 1]),
        Some(true),
        "certified inverse must re-check"
    );
}
