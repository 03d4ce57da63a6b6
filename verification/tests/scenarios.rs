use sudoku_solver::{SolveError, Sudoku};

fn known_solution() -> Vec<Vec<u8>> {
    vec![
        vec![8, 6, 1, 2, 4, 3, 5, 7, 9],
        vec![4, 7, 5, 9, 8, 6, 2, 3, 1],
        vec![9, 3, 2, 5, 7, 1, 6, 4, 8],
        vec![6, 5, 4, 1, 2, 9, 3, 8, 7],
        vec![7, 2, 9, 3, 5, 8, 4, 1, 6],
        vec![3, 1, 8, 7, 6, 4, 9, 5, 2],
        vec![1, 9, 6, 8, 3, 5, 7, 2, 4],
        vec![2, 4, 3, 6, 1, 7, 8, 9, 5],
        vec![5, 8, 7, 4, 9, 2, 1, 6, 3],
    ]
}

fn two_by_two_ambiguity() -> Vec<Vec<u8>> {
    vec![
        vec![9, 8, 1, 0, 4, 6, 5, 0, 2],
        vec![7, 3, 4, 5, 2, 9, 8, 6, 1],
        vec![6, 2, 5, 0, 8, 1, 4, 0, 9],
        vec![3, 9, 7, 8, 1, 4, 2, 5, 6],
        vec![4, 5, 6, 2, 3, 7, 1, 9, 8],
        vec![2, 1, 8, 6, 9, 5, 3, 4, 7],
        vec![5, 6, 2, 1, 7, 3, 9, 8, 4],
        vec![8, 7, 9, 4, 5, 2, 6, 1, 3],
        vec![1, 4, 3, 9, 6, 8, 7, 2, 5],
    ]
}

fn cornered() -> Vec<Vec<u8>> {
    let mut rows = vec![vec![0u8; 9]; 9];
    rows[0] = vec![1, 2, 3, 4, 5, 6, 7, 8, 0];
    rows[4][8] = 9;
    rows
}

#[test]
fn lone_candidate_is_filled_in_one_round() {
    let mut rows = known_solution();
    rows[0] = vec![8, 6, 0, 2, 4, 3, 5, 0, 0];
    rows[1][1] = 0;
    rows[3][5] = 0;
    rows[4][4] = 0;
    rows[5][6] = 0;
    rows[6][2] = 0;
    rows[7][3] = 0;
    rows[8][8] = 0;
    let mut sudoku = Sudoku::from(rows).unwrap();
    sudoku.get_empty_cells();
    assert_eq!(sudoku.possible_vals(&(1, 1, 0)), vec![7]);
    assert_eq!(sudoku.fill_sure_places(), Ok(()));
    assert_eq!(sudoku.table[1][1], 7);
    assert_eq!(sudoku.table, known_solution());
}

#[test]
fn two_fives_in_one_region_are_invalid() {
    let mut rows = known_solution();
    assert_eq!(rows[4][4], 5);
    rows[3][3] = 5;
    let sudoku = Sudoku::from(rows).unwrap();
    assert_eq!(sudoku.is_valid(), Err(SolveError::InvalidPuzzle));
}

#[test]
fn repeat_in_a_region_only_is_invalid() {
    let mut rows = vec![vec![0u8; 9]; 9];
    rows[3][3] = 5;
    rows[4][4] = 5;
    let sudoku = Sudoku::from(rows).unwrap();
    assert_eq!(sudoku.is_valid(), Err(SolveError::InvalidPuzzle));
}

#[test]
fn repeat_in_a_row_only_is_invalid() {
    let mut rows = vec![vec![0u8; 9]; 9];
    rows[6][0] = 2;
    rows[6][8] = 2;
    let sudoku = Sudoku::from(rows).unwrap();
    assert_eq!(sudoku.is_valid(), Err(SolveError::InvalidPuzzle));
}

#[test]
fn repeat_in_a_column_only_is_invalid() {
    let mut rows = vec![vec![0u8; 9]; 9];
    rows[0][8] = 9;
    rows[8][8] = 9;
    let sudoku = Sudoku::from(rows).unwrap();
    assert_eq!(sudoku.is_valid(), Err(SolveError::InvalidPuzzle));
}

#[test]
fn repeat_in_the_last_group_is_found() {
    let mut rows = known_solution();
    rows[8][8] = rows[7][7];
    let sudoku = Sudoku::from(rows).unwrap();
    assert_eq!(sudoku.is_valid(), Err(SolveError::InvalidPuzzle));
}

#[test]
fn empty_cells_are_no_repeats() {
    let sudoku = Sudoku::from(vec![vec![0u8; 9]; 9]).unwrap();
    assert_eq!(sudoku.is_valid(), Ok(()));
}

#[test]
fn same_digit_in_unrelated_cells_is_valid() {
    let mut rows = vec![vec![0u8; 9]; 9];
    rows[0][0] = 4;
    rows[4][4] = 4;
    rows[8][8] = 4;
    let sudoku = Sudoku::from(rows).unwrap();
    assert_eq!(sudoku.is_valid(), Ok(()));
}

#[test]
fn no_single_candidate_stalls_with_the_open_set_unchanged() {
    let mut sudoku = Sudoku::from(two_by_two_ambiguity()).unwrap();
    assert_eq!(sudoku.is_valid(), Ok(()));
    sudoku.get_empty_cells();
    let scanned = sudoku.empty_cells.clone();
    assert_eq!(scanned.len(), 4);
    for cell in &scanned.cells {
        assert_eq!(cell.candidates, vec![3, 7]);
    }
    assert_eq!(sudoku.fill_sure_places(), Err(SolveError::Stalled));
    assert_eq!(sudoku.empty_cells, scanned);
    assert_eq!(sudoku.table, two_by_two_ambiguity());
}

#[test]
fn solve_reports_a_stall_and_keeps_the_partial_board() {
    let mut rows = two_by_two_ambiguity();
    rows[4][4] = 0;
    rows[7][1] = 0;
    let mut sudoku = Sudoku::from(rows).unwrap();
    assert_eq!(sudoku.solve(), Err(SolveError::Stalled));
    assert_eq!(sudoku.table, two_by_two_ambiguity());
    assert_eq!(sudoku.empty_cells.len(), 4);
}

#[test]
fn cell_without_candidates_is_a_contradiction() {
    let mut sudoku = Sudoku::from(cornered()).unwrap();
    assert_eq!(sudoku.is_valid(), Ok(()));
    sudoku.get_empty_cells();
    assert_eq!(sudoku.empty_cells.get(&(0, 8, 2)), Some(&Vec::new()));
    assert_eq!(sudoku.fill_sure_places(), Err(SolveError::InvalidPuzzle));
    assert_eq!(sudoku.table, cornered());
}

#[test]
fn solve_reports_a_contradiction() {
    let mut sudoku = Sudoku::from(cornered()).unwrap();
    assert_eq!(sudoku.solve(), Err(SolveError::InvalidPuzzle));
    assert_eq!(sudoku.table, cornered());
}

#[test]
fn solve_rejects_an_unsound_board_untouched() {
    let mut rows = known_solution();
    rows[3][3] = 5;
    rows[0][2] = 0;
    let before = Sudoku::from(rows).unwrap();
    let mut sudoku = before.clone();
    assert_eq!(sudoku.solve(), Err(SolveError::InvalidPuzzle));
    assert_eq!(sudoku, before);
}

#[test]
fn two_cells_racing_for_one_digit_end_in_a_contradiction() {
    let mut rows = vec![vec![0u8; 9]; 9];
    rows[0] = vec![0, 0, 1, 2, 3, 4, 5, 6, 7];
    rows[3][0] = 9;
    rows[6][1] = 9;
    let mut sudoku = Sudoku::from(rows).unwrap();
    assert_eq!(sudoku.is_valid(), Ok(()));
    sudoku.get_empty_cells();
    assert_eq!(sudoku.possible_vals(&(0, 0, 0)), vec![8]);
    assert_eq!(sudoku.possible_vals(&(0, 1, 0)), vec![8]);
    assert_eq!(sudoku.fill_sure_places(), Err(SolveError::InvalidPuzzle));
    assert_eq!(sudoku.table[0][0], 8);
    assert_eq!(sudoku.table[0][1], 0);
    assert_eq!(sudoku.is_valid(), Ok(()));
}

#[test]
fn blank_board_comes_to_rest_at_once() {
    let mut sudoku = Sudoku::from(vec![vec![0u8; 9]; 9]).unwrap();
    assert_eq!(sudoku.solve(), Err(SolveError::Stalled));
    assert_eq!(sudoku.table, vec![vec![0u8; 9]; 9]);
    assert_eq!(sudoku.empty_cells.len(), 81);
}

#[test]
fn every_run_ends_within_81_rounds() {
    for rows in [known_solution(), two_by_two_ambiguity(), cornered(), vec![vec![0u8; 9]; 9]] {
        let mut sudoku = Sudoku::from(rows).unwrap();
        sudoku.get_empty_cells();
        let mut rounds = 0;
        while !sudoku.empty_cells.is_empty() {
            rounds += 1;
            if sudoku.fill_sure_places().is_err() {
                break;
            }
        }
        assert!(rounds <= 81);
    }
}
