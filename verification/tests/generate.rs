use sudoku::Board;

fn generate_solved_cells() -> [u8; 81] {
    [
        2, 4, 9, 3, 6, 8, 7, 1, 5,
        3, 5, 6, 9, 7, 1, 8, 2, 4,
        7, 8, 1, 5, 4, 2, 6, 3, 9,
        5, 1, 2, 7, 8, 3, 4, 9, 6,
        8, 7, 4, 6, 2, 9, 1, 5, 3,
        6, 9, 3, 1, 5, 4, 2, 7, 8,
        9, 6, 7, 4, 1, 5, 3, 8, 2,
        4, 2, 5, 8, 3, 7, 9, 6, 1,
        1, 3, 8, 2, 9, 6, 5, 4, 7,
    ]
}

fn generate_stuck_cells() -> [u8; 81] {
    let mut cells = [0u8; 81];
    for column in 0..8 {
        cells[column] = column as u8 + 1;
    }
    cells[35] = 9;
    cells
}

fn generate_count(board: &Board) -> (bool, u32) {
    let mut copy = board.clone();
    let mut count = 0;
    let stopped = Board::count_solutions(&mut copy, &mut count);
    (stopped, count)
}

#[test]
fn remove_if_unique_empties_a_cell_of_a_full_board() {
    for index in [0usize, 40, 80] {
        let mut board = Board::from_cells(generate_solved_cells()).unwrap();
        assert!(board.remove_if_unique(index));
        let mut expected = generate_solved_cells();
        expected[index] = 0;
        assert_eq!(board.cells(), expected);
    }
}

#[test]
fn remove_if_unique_keeps_a_digit_that_is_needed() {
    let mut cells = generate_solved_cells();
    for index in [1, 8, 10] {
        cells[index] = 0;
    }
    let mut board = Board::from_cells(cells).unwrap();
    assert_eq!(generate_count(&board), (false, 1));
    // cell 17 is the fourth corner of a rectangle that holds 4 5 / 5 4
    assert!(!board.remove_if_unique(17));
    assert_eq!(board.cells(), cells);
    assert!(board.remove_if_unique(0));
    cells[0] = 0;
    assert_eq!(board.cells(), cells);
}

#[test]
fn remove_if_unique_keeps_a_stuck_board() {
    let mut board = Board::from_cells(generate_stuck_cells()).unwrap();
    assert!(!board.remove_if_unique(0));
    assert!(!board.remove_if_unique(35) || board.get(35) == 0);
    assert!(board.is_well_formed());
}

#[test]
fn removal_round_takes_the_picked_digit_and_keeps_the_attempts() {
    let mut board = Board::from_cells(generate_solved_cells()).unwrap();
    assert_eq!(board.removal_round(40, 3), 3);
    let mut expected = generate_solved_cells();
    expected[40] = 0;
    assert_eq!(board.cells(), expected);
    // with cell 40 empty, the digit with 40 digits before it is at cell 41
    assert_eq!(board.removal_round(40, 3), 3);
    expected[41] = 0;
    assert_eq!(board.cells(), expected);
    assert_eq!(board.removal_round(0, 1), 1);
    expected[0] = 0;
    assert_eq!(board.cells(), expected);
}

#[test]
fn removal_round_uses_up_one_attempt_when_the_digit_is_needed() {
    let mut cells = generate_solved_cells();
    for index in [1, 8, 10] {
        cells[index] = 0;
    }
    let mut board = Board::from_cells(cells).unwrap();
    // cells 1, 8 and 10 are empty, so cell 17 has 14 digits before it; it is
    // the fourth corner of a rectangle that holds 4 5 / 5 4
    assert_eq!(board.nth_filled(14), 17);
    assert_eq!(board.removal_round(14, 5), 4);
    assert_eq!(board.cells(), cells);
    assert_eq!(board.removal_round(14, 1), 0);
    assert_eq!(board.cells(), cells);
    assert_eq!(board.removal_round(15, 4), 4);
    cells[18] = 0;
    assert_eq!(board.cells(), cells);
}

#[test]
fn generate_problem_without_attempts_only_fills() {
    let mut board = Board::new();
    board.generate_problem(0);
    assert!(board.is_filled());
    assert!(board.is_well_formed());
    assert_eq!(generate_count(&board), (true, 0));
}

#[test]
fn generate_problem_leaves_one_completion() {
    for attempts in [1u32, 2, 5] {
        let mut board = Board::new();
        board.generate_problem(attempts);
        assert!(board.is_well_formed());
        assert!(!board.is_filled());
        assert_eq!(generate_count(&board), (false, 1));
    }
}

#[test]
fn generate_problem_result_is_solved_by_fill_grid() {
    let mut board = Board::new();
    board.generate_problem(5);
    let puzzle = board.cells();
    assert!(puzzle.iter().any(|cell| *cell == 0));
    assert!(board.fill_grid());
    assert!(board.is_filled());
    assert!(board.is_well_formed());
    for index in 0..81 {
        let digit = board.get(index);
        assert!(board.is_valid_filler(digit, index));
        if puzzle[index] != 0 {
            assert_eq!(digit, puzzle[index]);
        }
    }
    // a second run finds the same, the only, completion
    let mut again = Board::from_cells(puzzle).unwrap();
    assert!(again.fill_grid());
    assert_eq!(again.cells(), board.cells());
}

#[test]
fn generate_problem_holds_a_digit_that_is_needed() {
    let mut board = Board::new();
    board.generate_problem(3);
    let puzzle = board.cells();
    let needed = (0..81).any(|index| {
        let mut copy = Board::from_cells(puzzle).unwrap();
        puzzle[index] != 0 && !copy.remove_if_unique(index)
    });
    assert!(needed);
}

#[test]
fn generate_problem_on_a_puzzle_keeps_its_completion() {
    let mut cells = generate_solved_cells();
    for index in [0, 1, 2, 40, 77] {
        cells[index] = 0;
    }
    let mut board = Board::from_cells(cells).unwrap();
    board.generate_problem(2);
    assert_eq!(generate_count(&board), (false, 1));
    assert!(board.fill_grid());
    assert_eq!(board.cells(), generate_solved_cells());
}

#[test]
fn generate_problem_on_a_stuck_board_ends() {
    let mut board = Board::from_cells(generate_stuck_cells()).unwrap();
    board.generate_problem(4);
    assert!(board.is_well_formed());
    let cells = board.cells();
    let stuck = generate_stuck_cells();
    for index in 0..81 {
        assert!(cells[index] == 0 || cells[index] == stuck[index]);
    }
}

#[test]
fn more_attempts_end_too() {
    let mut board = Board::new();
    board.generate_problem(30);
    assert!(board.is_well_formed());
    assert_eq!(generate_count(&board), (false, 1));
    assert!(board.count_filled() < 81);
    assert!(board.count_filled() >= 17);
}
