use tsp_solver::error::TSPError;
use tsp_solver::solver::{count_bits, TSPSolver};
use tsp_solver::validate::validate_input;

fn solve(matrix: Vec<Vec<i64>>) -> (u128, Vec<usize>) {
    let mut solver = TSPSolver::new(matrix);
    solver.solve()
}

fn cycle_cost(matrix: &[Vec<i64>], tour: &[usize]) -> u128 {
    let mut total: u128 = 0;
    for i in 0..tour.len() {
        let next = tour[(i + 1) % tour.len()];
        total += matrix[tour[i]][next] as u128;
    }
    total
}

fn extend_tours(matrix: &[Vec<i64>], path: &mut Vec<usize>, used: &mut Vec<bool>, best: &mut u128) {
    if path.len() == matrix.len() {
        let c = cycle_cost(matrix, path);
        if c < *best {
            *best = c;
        }
        return;
    }
    for c in 1..matrix.len() {
        if !used[c] {
            used[c] = true;
            path.push(c);
            extend_tours(matrix, path, used, best);
            path.pop();
            used[c] = false;
        }
    }
}

fn brute_force(matrix: &[Vec<i64>]) -> u128 {
    let mut best = u128::MAX;
    let mut used = vec![false; matrix.len()];
    used[0] = true;
    extend_tours(matrix, &mut vec![0], &mut used, &mut best);
    best
}

#[test]
fn test_small_tsp() {
    let matrix = vec![vec![0, 10, 15], vec![10, 0, 20], vec![15, 20, 0]];
    let mut solver = TSPSolver::new(matrix);
    let (cost, path) = solver.solve();
    assert_eq!(cost, 45);
    assert_eq!(path, vec![0, 1, 2]);
}

#[test]
fn test_single_city() {
    let matrix = vec![vec![0]];
    let mut solver = TSPSolver::new(matrix);
    let (cost, path) = solver.solve();
    assert_eq!(cost, 0);
    assert_eq!(path, vec![0]);
}

#[test]
fn no_cities_give_an_empty_tour() {
    let (cost, path) = solve(vec![]);
    assert_eq!(cost, 0);
    assert!(path.is_empty());
}

#[test]
fn two_cities_go_there_and_back() {
    let (cost, path) = solve(vec![vec![0, 7], vec![7, 0]]);
    assert_eq!(cost, 14);
    assert_eq!(path, vec![0, 1]);
}

#[test]
fn repeated_solves_agree() {
    let matrix = vec![
        vec![0, 3, 9, 4],
        vec![3, 0, 2, 8],
        vec![9, 2, 0, 5],
        vec![4, 8, 5, 0],
    ];
    let mut solver = TSPSolver::new(matrix);
    let first = solver.solve();
    let second = solver.solve();
    assert_eq!(first, second);
    assert_eq!(first, solve(vec![
        vec![0, 3, 9, 4],
        vec![3, 0, 2, 8],
        vec![9, 2, 0, 5],
        vec![4, 8, 5, 0],
    ]));
    assert_eq!(first.0, 14);
}

#[test]
fn matches_brute_force_on_asymmetric_matrices() {
    let mut seed: u64 = 12345;
    for n in 2..=7usize {
        let mut matrix = vec![vec![0i64; n]; n];
        for i in 0..n {
            for j in 0..n {
                if i != j {
                    seed = seed.wrapping_mul(6364136223846793005).wrapping_add(1442695040888963407);
                    matrix[i][j] = ((seed >> 33) % 100) as i64;
                }
            }
        }
        let (cost, path) = solve(matrix.clone());
        assert_eq!(cost, brute_force(&matrix));
        assert_eq!(path.len(), n);
        assert_eq!(path[0], 0);
        let mut seen = path.clone();
        seen.sort();
        assert_eq!(seen, (0..n).collect::<Vec<_>>());
        assert_eq!(cycle_cost(&matrix, &path), cost);
    }
}

#[test]
fn ties_go_to_the_lowest_next_city() {
    let matrix = vec![vec![0, 1, 1, 1], vec![1, 0, 1, 1], vec![1, 1, 0, 1], vec![1, 1, 1, 0]];
    let (cost, path) = solve(matrix);
    assert_eq!(cost, 4);
    assert_eq!(path, vec![0, 1, 2, 3]);
    let symmetric = vec![vec![0, 5, 5], vec![5, 0, 5], vec![5, 5, 0]];
    assert_eq!(solve(symmetric), (15, vec![0, 1, 2]));
}

#[test]
fn large_distances_do_not_overflow() {
    let big = i64::MAX;
    let (cost, path) = solve(vec![vec![0, big], vec![big, 0]]);
    assert_eq!(cost, 2 * (i64::MAX as u128));
    assert_eq!(path, vec![0, 1]);
}

fn names(n: usize) -> Vec<String> {
    (0..n).map(|i| format!("C{}", i)).collect()
}

#[test]
fn one_city_is_too_few() {
    assert_eq!(
        validate_input(&names(1), &vec![vec![0]]),
        Err(TSPError::TooFewCities { count: 1 })
    );
}

#[test]
fn twenty_one_cities_are_too_many() {
    let m = vec![vec![0i64; 21]; 21];
    assert_eq!(validate_input(&names(21), &m), Err(TSPError::TooManyCities { count: 21 }));
    let m20 = vec![vec![0i64; 20]; 20];
    assert_eq!(validate_input(&names(20), &m20), Ok(()));
}

#[test]
fn validation_reports_matrix_faults() {
    assert_eq!(
        validate_input(&names(2), &vec![vec![0, 1]]),
        Err(TSPError::DimensionMismatch { in_row: None, found: 1, expected: 2 })
    );
    assert_eq!(
        validate_input(&names(2), &vec![vec![0, 1], vec![1]]),
        Err(TSPError::DimensionMismatch { in_row: Some(2), found: 1, expected: 2 })
    );
    assert_eq!(
        validate_input(&names(2), &vec![vec![0, 1], vec![1, 3]]),
        Err(TSPError::NonZeroDiagonal { city: 1 })
    );
    assert_eq!(
        validate_input(&names(2), &vec![vec![0, -1], vec![1, 0]]),
        Err(TSPError::NegativeDistance { from: 0, to: 1 })
    );
    assert_eq!(validate_input(&names(2), &vec![vec![0, 1], vec![1, 0]]), Ok(()));
}

#[test]
fn trace_lists_small_reached_states() {
    let mut solver = TSPSolver::new(vec![vec![0, 10, 15], vec![10, 0, 20], vec![15, 20, 0]]);
    assert_eq!(solver.dp_trace(), vec![(1, 0, 45), (3, 1, 35), (5, 2, 30)]);
    let mut four = TSPSolver::new(vec![vec![0, 1, 1, 1], vec![1, 0, 1, 1], vec![1, 1, 0, 1], vec![1, 1, 1, 0]]);
    let trace = four.dp_trace();
    assert_eq!(trace.len(), 1 + 3 + 6);
    assert!(trace.iter().all(|&(m, c, _)| m & 1 == 1 && m & (1 << c) != 0 && count_bits(m) <= 3));
}

#[test]
fn bits_are_counted() {
    assert_eq!(count_bits(0), 0);
    assert_eq!(count_bits(0b1011), 3);
    assert_eq!(count_bits(u32::MAX), 32);
}
