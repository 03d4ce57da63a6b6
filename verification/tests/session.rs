use sudoku_solver::Sudoku;

fn puzzle() -> Vec<Vec<u8>> {
    vec![
        vec![6, 1, 4, 3, 0, 2, 8, 5, 0],
        vec![9, 0, 5, 4, 8, 0, 2, 0, 3],
        vec![0, 0, 0, 9, 0, 0, 0, 1, 0],
        vec![8, 6, 0, 2, 4, 3, 5, 0, 0],
        vec![5, 2, 0, 1, 0, 6, 0, 0, 8],
        vec![3, 4, 9, 0, 5, 8, 6, 0, 1],
        vec![4, 0, 6, 8, 2, 7, 0, 0, 5],
        vec![0, 5, 3, 0, 0, 4, 0, 8, 0],
        vec![1, 8, 2, 5, 3, 9, 0, 0, 6],
    ]
}

#[test]
fn reading_to_table() {
    let sudoku = Sudoku::from(puzzle()).unwrap();
    let temp: Vec<u8> = vec![8, 6, 0, 2, 4, 3, 5, 0, 0];

    assert!(sudoku.table.contains(&temp));
}

#[test]
fn find_empty_cells() {
    let mut sudoku = Sudoku::from(puzzle()).unwrap();
    sudoku.get_empty_cells();
    let temp: Vec<u8> = vec![7];

    assert!(sudoku.empty_cells.contains_key(&(1, 1, 0)));
    assert_eq!(sudoku.empty_cells.get(&(1, 1, 0)), Some(&temp));
}

#[test]
fn fill_places() {
    let mut sudoku = Sudoku::from(puzzle()).unwrap();
    sudoku.get_empty_cells();
    let _ = sudoku.fill_sure_places();

    assert_eq!(8, sudoku.table[2][2])
}

#[test]
fn get_possible_values() {
    let sudoku = Sudoku::from(puzzle()).unwrap();
    assert_eq!(sudoku.possible_vals(&(0, 8, 2)), vec![7, 9]);
}

fn solved() -> Vec<Vec<u8>> {
    vec![
        vec![6, 1, 4, 3, 7, 2, 8, 5, 9],
        vec![9, 7, 5, 4, 8, 1, 2, 6, 3],
        vec![2, 3, 8, 9, 6, 5, 7, 1, 4],
        vec![8, 6, 1, 2, 4, 3, 5, 9, 7],
        vec![5, 2, 7, 1, 9, 6, 3, 4, 8],
        vec![3, 4, 9, 7, 5, 8, 6, 2, 1],
        vec![4, 9, 6, 8, 2, 7, 1, 3, 5],
        vec![7, 5, 3, 6, 1, 4, 9, 8, 2],
        vec![1, 8, 2, 5, 3, 9, 4, 7, 6],
    ]
}

fn zeros(table: &Vec<Vec<u8>>) -> usize {
    table.iter().map(|row| row.iter().filter(|&&d| d == 0).count()).sum()
}

#[test]
fn fresh_session_has_nothing_scanned() {
    let sudoku = Sudoku::from(puzzle()).unwrap();
    assert_eq!(sudoku.table, puzzle());
    assert!(sudoku.empty_cells.is_empty());
    assert_eq!(sudoku.empty_cells.len(), 0);
}

#[test]
fn scan_lists_every_empty_cell_in_row_major_order() {
    let mut sudoku = Sudoku::from(puzzle()).unwrap();
    sudoku.get_empty_cells();
    assert_eq!(sudoku.table, puzzle());
    assert_eq!(sudoku.empty_cells.len(), 31);
    let first = &sudoku.empty_cells.cells[0];
    assert_eq!((first.row, first.col, first.region), (0, 4, 1));
    assert_eq!(first.candidates, vec![7]);
    let last = &sudoku.empty_cells.cells[30];
    assert_eq!((last.row, last.col, last.region), (8, 7, 8));
    let mut previous = None;
    for cell in &sudoku.empty_cells.cells {
        assert_eq!(sudoku.table[cell.row][cell.col], 0);
        assert_eq!(cell.region, cell.row / 3 * 3 + cell.col / 3);
        assert_eq!(cell.candidates, sudoku.possible_vals(&(cell.row, cell.col, cell.region)));
        let number = cell.row * 9 + cell.col;
        assert!(previous.map_or(true, |p| p < number));
        previous = Some(number);
    }
}

#[test]
fn scan_twice_gives_the_same_open_set() {
    let mut sudoku = Sudoku::from(puzzle()).unwrap();
    sudoku.get_empty_cells();
    let once = sudoku.empty_cells.clone();
    sudoku.get_empty_cells();
    assert_eq!(sudoku.empty_cells, once);
}

#[test]
fn filled_cells_are_not_in_the_open_set() {
    let mut sudoku = Sudoku::from(puzzle()).unwrap();
    sudoku.get_empty_cells();
    assert!(!sudoku.empty_cells.contains_key(&(0, 0, 0)));
    assert_eq!(sudoku.empty_cells.get(&(0, 0, 0)), None);
    assert!(!sudoku.empty_cells.contains_key(&(1, 1, 4)));
    assert_eq!(sudoku.empty_cells.get(&(1, 1, 4)), None);
    assert!(!sudoku.empty_cells.contains_key(&(9, 9, 9)));
}

#[test]
fn candidates_are_common_to_row_column_and_region() {
    let sudoku = Sudoku::from(puzzle()).unwrap();
    assert_eq!(sudoku.possible_vals(&(1, 1, 0)), vec![7]);
    assert_eq!(sudoku.possible_vals(&(2, 2, 0)), vec![7, 8]);
    assert_eq!(sudoku.possible_vals(&(3, 2, 3)), vec![1, 7]);
}

#[test]
fn candidates_of_a_filled_cell_leave_its_digit_out() {
    let sudoku = Sudoku::from(puzzle()).unwrap();
    let vals = sudoku.possible_vals(&(0, 0, 0));
    assert!(!vals.contains(&6));
}

#[test]
fn candidates_do_not_change_without_a_fill() {
    let sudoku = Sudoku::from(puzzle()).unwrap();
    let once = sudoku.possible_vals(&(4, 6, 5));
    let twice = sudoku.possible_vals(&(4, 6, 5));
    assert_eq!(once, twice);
}

#[test]
fn first_round_fills_on_the_table_as_it_stands() {
    let mut sudoku = Sudoku::from(puzzle()).unwrap();
    sudoku.get_empty_cells();
    assert_eq!(sudoku.fill_sure_places(), Ok(()));
    let expected: Vec<Vec<u8>> = vec![
        vec![6, 1, 4, 3, 7, 2, 8, 5, 9],
        vec![9, 7, 5, 4, 8, 1, 2, 6, 3],
        vec![2, 3, 8, 9, 6, 5, 0, 1, 0],
        vec![8, 6, 0, 2, 4, 3, 5, 0, 7],
        vec![5, 2, 7, 1, 9, 6, 0, 0, 8],
        vec![3, 4, 9, 7, 5, 8, 6, 2, 1],
        vec![4, 9, 6, 8, 2, 7, 0, 3, 5],
        vec![7, 5, 3, 6, 1, 4, 9, 8, 2],
        vec![1, 8, 2, 5, 3, 9, 0, 0, 6],
    ];
    assert_eq!(sudoku.table, expected);
    assert_eq!(sudoku.empty_cells.len(), 9);
    assert!(sudoku.empty_cells.contains_key(&(3, 2, 3)));
    assert_eq!(sudoku.empty_cells.get(&(3, 2, 3)), Some(&vec![1]));
    assert!(!sudoku.empty_cells.contains_key(&(1, 1, 0)));
}

#[test]
fn rounds_never_add_empty_cells() {
    let mut sudoku = Sudoku::from(puzzle()).unwrap();
    sudoku.get_empty_cells();
    let mut open = sudoku.empty_cells.len();
    let mut rounds = 0;
    while !sudoku.empty_cells.is_empty() {
        assert_eq!(sudoku.fill_sure_places(), Ok(()));
        rounds += 1;
        assert!(sudoku.empty_cells.len() < open);
        assert_eq!(sudoku.empty_cells.len(), zeros(&sudoku.table));
        open = sudoku.empty_cells.len();
        assert!(rounds <= 81);
    }
    assert_eq!(rounds, 3);
    assert_eq!(sudoku.table, solved());
}

#[test]
fn solve_completes_the_puzzle() {
    let mut sudoku = Sudoku::from(puzzle()).unwrap();
    assert_eq!(sudoku.solve(), Ok(()));
    assert_eq!(sudoku.table, solved());
    assert!(sudoku.empty_cells.is_empty());
    assert_eq!(sudoku.is_valid(), Ok(()));
}

#[test]
fn solve_leaves_a_complete_board_alone() {
    let mut sudoku = Sudoku::from(solved()).unwrap();
    assert_eq!(sudoku.solve(), Ok(()));
    assert_eq!(sudoku.table, solved());
}

#[test]
fn round_on_a_complete_board_succeeds() {
    let mut sudoku = Sudoku::from(solved()).unwrap();
    sudoku.get_empty_cells();
    assert!(sudoku.empty_cells.is_empty());
    assert_eq!(sudoku.fill_sure_places(), Ok(()));
    assert_eq!(sudoku.table, solved());
}

#[test]
fn complete_sound_board_is_valid() {
    let sudoku = Sudoku::from(solved()).unwrap();
    assert_eq!(sudoku.is_valid(), Ok(()));
}

#[test]
fn partly_filled_sound_board_is_valid() {
    let sudoku = Sudoku::from(puzzle()).unwrap();
    assert_eq!(sudoku.is_valid(), Ok(()));
}
