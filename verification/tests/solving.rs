use n_queens::utils::generate_bitset_columns;
use n_queens::Solver;

/// Plain re-check of the n-queens constraints, independent of the library.
fn is_valid_board(n: usize, sol: &[i8]) -> bool {
    if sol.len() != n {
        return false;
    }
    for c in 0..n {
        if sol[c] < 0 || sol[c] as usize >= n {
            return false;
        }
    }
    for c1 in 0..n {
        for c2 in (c1 + 1)..n {
            let r1 = sol[c1] as i64;
            let r2 = sol[c2] as i64;
            let d = (c2 - c1) as i64;
            if r1 == r2 || (r1 - r2).abs() == d {
                return false;
            }
        }
    }
    true
}

fn solve_all(n: usize, queens: Vec<(u8, u8)>) -> Vec<Vec<i8>> {
    let bitsets = generate_bitset_columns(n, &queens).unwrap();
    let mut solver = Solver::new(n, bitsets, queens, false);
    solver.solve();
    solver.solutions
}

/// An explicit valid 128-queens placement (0-based rows per column),
/// following the classical two-family construction for even board sizes
/// that are 2 modulo 6.
fn boundary_board() -> Vec<i8> {
    let n: usize = 128;
    let half = n / 2;
    let mut rows = vec![-1i8; n];
    for j in 1..=half {
        let t = (2 * (j - 1) + half - 1) % n;
        rows[j - 1] = t as i8;
        rows[n - j] = (n - 1 - t) as i8;
    }
    rows
}

#[test]
fn test_solve() {
    let n = 4;
    let queens = vec![(0, 2), (1, 0), (2, 3)];
    let bitsets = generate_bitset_columns(n, &queens).unwrap();
    let mut solver = Solver::new(n, bitsets, queens, false);
    solver.solve();
    assert_eq!(solver.solutions.len(), 1);
    assert_eq!(solver.solutions[0], vec![1, 3, 0, 2]);

    let n = 5;
    let queens = vec![(0, 0)];
    let bitsets = generate_bitset_columns(n, &queens).unwrap();
    let mut solver = Solver::new(n, bitsets, queens, false);
    solver.solve();
    assert_eq!(solver.solutions.len(), 2);
    assert_eq!(solver.solutions[0], vec![0, 2, 4, 1, 3]);
    assert_eq!(solver.solutions[1], vec![0, 3, 1, 4, 2]);

    let n = 5;
    let queens = vec![(0, 0)];
    let bitsets = generate_bitset_columns(n, &queens).unwrap();
    let mut solver = Solver::new(n, bitsets, queens, true);
    solver.solve();
    assert_eq!(solver.solutions.len(), 1);
    assert_eq!(solver.solutions[0], vec![0, 2, 4, 1, 3]);
}

#[test]
fn solution_counts_match_known_sequence() {
    assert_eq!(solve_all(4, vec![]).len(), 2);
    assert_eq!(solve_all(5, vec![]).len(), 10);
    assert_eq!(solve_all(8, vec![]).len(), 92);
}

#[test]
fn solutions_are_valid_and_lexicographically_ordered() {
    for n in [4usize, 5, 6, 8] {
        let sols = solve_all(n, vec![]);
        for sol in &sols {
            assert!(is_valid_board(n, sol));
        }
        for w in sols.windows(2) {
            assert!(w[0] < w[1], "n = {n}: solutions out of order");
        }
    }
}

#[test]
fn first_solution_mode_returns_lexicographic_least() {
    for n in [4usize, 5, 6, 8] {
        let all = solve_all(n, vec![]);
        let bitsets = generate_bitset_columns(n, &vec![]).unwrap();
        let mut solver = Solver::new(n, bitsets, vec![], true);
        solver.solve();
        assert_eq!(solver.solutions.len(), 1);
        assert_eq!(solver.solutions[0], all[0]);
    }
}

#[test]
fn no_solution_is_an_empty_result() {
    // (0, 0) and (2, 1) leave no room on a 4-wide board.
    let sols = solve_all(4, vec![(0, 0), (2, 1)]);
    assert!(sols.is_empty());
}

#[test]
fn solve_twice_yields_identical_results() {
    let n = 5;
    let queens = vec![(0, 0)];
    let bitsets = generate_bitset_columns(n, &queens).unwrap();
    let mut solver = Solver::new(n, bitsets, queens, false);
    solver.solve();
    let first_run = solver.solutions.clone();
    solver.solve();
    assert_eq!(solver.solutions, first_run);

    let bitsets = generate_bitset_columns(n, &vec![(0, 0)]).unwrap();
    let mut solver = Solver::new(n, bitsets, vec![(0, 0)], true);
    solver.solve();
    let first_run = solver.solutions.clone();
    solver.solve();
    assert_eq!(solver.solutions, first_run);
}

#[test]
fn reflected_solutions_are_valid() {
    for n in [5usize, 6, 8] {
        for sol in solve_all(n, vec![]) {
            let mirrored: Vec<i8> = sol.iter().map(|r| (n as i8) - 1 - r).collect();
            assert!(is_valid_board(n, &mirrored));
        }
    }
}

#[test]
fn boundary_board_size_fully_pinned() {
    // All 128 columns pre-placed with a valid arrangement: the solver must
    // report exactly that arrangement, in both search modes.
    let n: usize = 128;
    let board = boundary_board();
    assert!(is_valid_board(n, &board));
    let queens: Vec<(u8, u8)> = (0..n).map(|c| (board[c] as u8, c as u8)).collect();
    for only_one in [false, true] {
        let bitsets = generate_bitset_columns(n, &queens).unwrap();
        let mut solver = Solver::new(n, bitsets, queens.clone(), only_one);
        solver.solve();
        assert_eq!(solver.solutions.len(), 1);
        assert_eq!(solver.solutions[0], board);
    }
}

#[test]
fn boundary_board_size_with_free_columns() {
    // Free three columns of the valid 128-wide arrangement and let the
    // search fill them back in; compare against a brute-forced answer.
    let n: usize = 128;
    let board = boundary_board();
    let freed = [5usize, 70, 127];
    let queens: Vec<(u8, u8)> = (0..n)
        .filter(|c| !freed.contains(c))
        .map(|c| (board[c] as u8, c as u8))
        .collect();

    // Any completion must reuse the three freed rows, so brute force over
    // their assignments to the three freed columns, in discovery order.
    let mut free_rows: Vec<i8> = freed.iter().map(|&c| board[c]).collect();
    free_rows.sort();
    let mut expected: Vec<Vec<i8>> = Vec::new();
    for &r0 in &free_rows {
        for &r1 in &free_rows {
            for &r2 in &free_rows {
                let mut cand = board.clone();
                cand[freed[0]] = r0;
                cand[freed[1]] = r1;
                cand[freed[2]] = r2;
                if is_valid_board(n, &cand) {
                    expected.push(cand);
                }
            }
        }
    }
    assert!(expected.contains(&board));

    let bitsets = generate_bitset_columns(n, &queens).unwrap();
    let mut solver = Solver::new(n, bitsets, queens, false);
    solver.solve();
    assert_eq!(solver.solutions, expected);
}

#[test]
fn boundary_board_size_conflict() {
    let queens = vec![(0u8, 0u8), (127u8, 127u8)];
    assert!(generate_bitset_columns(128, &queens).is_err());
}
