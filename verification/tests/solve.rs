use sudoku::random::{shuffled_by, shuffled_list, swap_entries};
use sudoku::Board;

fn solve_solved_cells() -> [u8; 81] {
    [
        2, 4, 9, 3, 6, 8, 7, 1, 5,
        3, 5, 6, 9, 7, 1, 8, 2, 4,
        7, 8, 1, 5, 4, 2, 6, 3, 9,
        5, 1, 2, 7, 8, 3, 4, 9, 6,
        8, 7, 4, 6, 2, 9, 1, 5, 3,
        6, 9, 3, 1, 5, 4, 2, 7, 8,
        9, 6, 7, 4, 1, 5, 3, 8, 2,
        4, 2, 5, 8, 3, 7, 9, 6, 1,
        1, 3, 8, 2, 9, 6, 5, 4, 7,
    ]
}

fn solve_puzzle_cells() -> [u8; 81] {
    [
        2, 0, 9, 3, 6, 8, 0, 0, 0,
        0, 5, 6, 9, 0, 0, 0, 0, 0,
        7, 0, 0, 0, 0, 2, 6, 0, 0,
        0, 1, 0, 0, 0, 0, 4, 0, 0,
        0, 0, 4, 6, 0, 9, 0, 0, 0,
        0, 0, 3, 0, 0, 4, 0, 7, 8,
        9, 0, 0, 4, 1, 5, 3, 8, 0,
        0, 0, 5, 0, 3, 0, 9, 0, 1,
        0, 3, 0, 2, 9, 6, 0, 4, 7,
    ]
}

/// The solved grid without the four corners of a rectangle that holds
/// 4 5 / 5 4: the two digits can be swapped.
fn solve_swappable_cells() -> [u8; 81] {
    let mut cells = solve_solved_cells();
    for index in [1, 8, 10, 17] {
        cells[index] = 0;
    }
    cells
}

/// The solved grid without the corners of two such rectangles.
fn solve_twice_swappable_cells() -> [u8; 81] {
    let mut cells = solve_swappable_cells();
    for index in [56, 59, 65, 68] {
        cells[index] = 0;
    }
    cells
}

/// Row 0 holds 1..=8 and leaves its last cell empty; a 9 further down in the
/// last column leaves no digit for that cell.
fn solve_stuck_cells() -> [u8; 81] {
    let mut cells = [0u8; 81];
    for column in 0..8 {
        cells[column] = column as u8 + 1;
    }
    cells[35] = 9;
    cells
}

fn solve_respects_constraint(board: &Board) -> bool {
    (0..81).all(|index| {
        let digit = board.get(index);
        (1..=9).contains(&digit) && board.is_valid_filler(digit, index)
    })
}

#[test]
fn swap_entries_exchanges_two_entries() {
    let mut list = [1u8, 2, 3, 4, 5, 6, 7, 8, 9];
    swap_entries(&mut list, 8, 2);
    assert_eq!(list, [1, 2, 9, 4, 5, 6, 7, 8, 3]);
    swap_entries(&mut list, 0, 8);
    assert_eq!(list, [3, 2, 9, 4, 5, 6, 7, 8, 1]);
    swap_entries(&mut list, 4, 4);
    assert_eq!(list, [3, 2, 9, 4, 5, 6, 7, 8, 1]);
}

#[test]
fn shuffled_by_follows_the_draws() {
    assert_eq!(shuffled_by([8, 7, 6, 5, 4, 3, 2, 1]), [1, 2, 3, 4, 5, 6, 7, 8, 9]);
    assert_eq!(shuffled_by([0, 0, 0, 0, 0, 0, 0, 0]), [2, 3, 4, 5, 6, 7, 8, 9, 1]);
    assert_eq!(shuffled_by([3, 0, 5, 2, 2, 1, 0, 1]), [5, 9, 8, 2, 7, 3, 6, 1, 4]);
    assert_eq!(shuffled_by([0, 7, 6, 5, 4, 3, 2, 1]), [9, 2, 3, 4, 5, 6, 7, 8, 1]);
    assert_eq!(shuffled_by([8, 7, 6, 5, 4, 3, 2, 0]), [2, 1, 3, 4, 5, 6, 7, 8, 9]);
}

#[test]
fn shuffled_list_holds_each_digit_once() {
    for _ in 0..200 {
        let mut list = shuffled_list();
        list.sort();
        assert_eq!(list, [1, 2, 3, 4, 5, 6, 7, 8, 9]);
    }
}

#[test]
fn shuffled_list_varies() {
    let first = shuffled_list();
    let mut differs = false;
    let mut last_moves = false;
    for _ in 0..200 {
        let list = shuffled_list();
        differs = differs || list != first;
        last_moves = last_moves || list[8] != first[8];
    }
    assert!(differs);
    assert!(last_moves);
}

#[test]
fn fill_grid_completes_a_blank_board() {
    let mut board = Board::new();
    assert!(board.fill_grid());
    assert!(board.is_filled());
    assert!(board.is_well_formed());
    assert!(solve_respects_constraint(&board));
}

#[test]
fn fill_grid_gives_varied_boards() {
    let mut first = Board::new();
    assert!(first.fill_grid());
    let mut differs = false;
    for _ in 0..20 {
        let mut board = Board::new();
        assert!(board.fill_grid());
        assert!(solve_respects_constraint(&board));
        differs = differs || board.cells() != first.cells();
    }
    assert!(differs);
}

#[test]
fn fill_grid_finds_the_completion_of_a_puzzle() {
    let mut board = Board::from_cells(solve_puzzle_cells()).unwrap();
    assert!(board.fill_grid());
    assert_eq!(board.cells(), solve_solved_cells());
}

#[test]
fn fill_grid_keeps_the_given_digits() {
    let mut board = Board::from_cells(solve_twice_swappable_cells()).unwrap();
    assert!(board.fill_grid());
    assert!(solve_respects_constraint(&board));
    let given = solve_twice_swappable_cells();
    for index in 0..81 {
        if given[index] != 0 {
            assert_eq!(board.get(index), given[index]);
        }
    }
}

#[test]
fn fill_grid_on_a_full_board_changes_nothing() {
    let mut board = Board::from_cells(solve_solved_cells()).unwrap();
    assert!(board.fill_grid());
    assert_eq!(board.cells(), solve_solved_cells());
}

#[test]
fn fill_grid_gives_up_on_a_stuck_board() {
    let mut board = Board::from_cells(solve_stuck_cells()).unwrap();
    assert!(!board.fill_grid());
    assert_eq!(board.cells(), solve_stuck_cells());
    assert!(!board.is_filled());
}

#[test]
fn count_solutions_on_a_full_board_returns_at_once() {
    let mut board = Board::from_cells(solve_solved_cells()).unwrap();
    let mut count = 0;
    assert!(Board::count_solutions(&mut board, &mut count));
    assert_eq!(count, 0);
    assert_eq!(board.cells(), solve_solved_cells());
    let mut count = 1;
    assert!(Board::count_solutions(&mut board, &mut count));
    assert_eq!(count, 1);
}

#[test]
fn count_solutions_stops_at_once_above_one() {
    let mut board = Board::from_cells(solve_puzzle_cells()).unwrap();
    let mut count = 2;
    assert!(Board::count_solutions(&mut board, &mut count));
    assert_eq!(count, 2);
    assert_eq!(board.cells(), solve_puzzle_cells());
    let mut count = 7;
    assert!(Board::count_solutions(&mut board, &mut count));
    assert_eq!(count, 7);
}

#[test]
fn count_solutions_counts_the_one_completion_of_a_puzzle() {
    let mut board = Board::from_cells(solve_puzzle_cells()).unwrap();
    let mut count = 0;
    assert!(!Board::count_solutions(&mut board, &mut count));
    assert_eq!(count, 1);
    assert_eq!(board.cells(), solve_puzzle_cells());
}

#[test]
fn count_solutions_counts_one_after_one_cell_is_cleared() {
    let mut filled = Board::new();
    assert!(filled.fill_grid());
    assert!(filled.is_filled());
    for index in [0usize, 13, 40, 67, 80] {
        let mut cells = filled.cells();
        cells[index] = 0;
        let mut board = Board::from_cells(cells).unwrap();
        let mut count = 0;
        assert!(!Board::count_solutions(&mut board, &mut count));
        assert_eq!(count, 1);
        assert_eq!(board.cells(), cells);
    }
}

#[test]
fn count_solutions_counts_two_for_swappable_cells() {
    let mut board = Board::from_cells(solve_swappable_cells()).unwrap();
    let mut count = 0;
    assert!(Board::count_solutions(&mut board, &mut count));
    assert_eq!(count, 2);
    // the board holds the second completion: the solved grid with 4 and 5
    // swapped in the rectangle
    let mut second = solve_solved_cells();
    second[1] = 5;
    second[8] = 4;
    second[10] = 4;
    second[17] = 5;
    assert_eq!(board.cells(), second);
}

#[test]
fn count_solutions_adds_to_the_counter() {
    let mut board = Board::from_cells(solve_swappable_cells()).unwrap();
    let mut count = 1;
    assert!(Board::count_solutions(&mut board, &mut count));
    assert_eq!(count, 2);
    // the search stopped at the first completion
    assert_eq!(board.cells(), solve_solved_cells());
}

#[test]
fn count_solutions_stops_at_the_one_completion_when_one_is_counted_already() {
    let mut board = Board::from_cells(solve_puzzle_cells()).unwrap();
    let mut count = 1;
    assert!(Board::count_solutions(&mut board, &mut count));
    assert_eq!(count, 2);
    assert_eq!(board.cells(), solve_solved_cells());
}

#[test]
fn count_solutions_stops_early_with_more_than_two_completions() {
    let mut board = Board::from_cells(solve_twice_swappable_cells()).unwrap();
    let mut count = 0;
    assert!(Board::count_solutions(&mut board, &mut count));
    assert_eq!(count, 2);
    // of the four completions the solved grid is the second
    assert_eq!(board.cells(), solve_solved_cells());

    let mut board = Board::from_cells(solve_twice_swappable_cells()).unwrap();
    let mut count = 1;
    assert!(Board::count_solutions(&mut board, &mut count));
    assert_eq!(count, 2);
    let mut first = solve_solved_cells();
    first[56] = 5;
    first[59] = 7;
    first[65] = 7;
    first[68] = 5;
    assert_eq!(board.cells(), first);
}

#[test]
fn count_solutions_stops_early_on_a_blank_board() {
    let started = std::time::Instant::now();
    let mut board = Board::new();
    let mut count = 0;
    assert!(Board::count_solutions(&mut board, &mut count));
    assert_eq!(count, 2);
    assert!(started.elapsed().as_secs() < 10);
    let second: [u8; 81] = [
        1, 2, 3, 4, 5, 6, 7, 8, 9,
        4, 5, 6, 7, 8, 9, 1, 2, 3,
        7, 8, 9, 1, 2, 3, 4, 5, 6,
        2, 1, 4, 3, 6, 5, 8, 9, 7,
        3, 6, 5, 8, 9, 7, 2, 1, 4,
        8, 9, 7, 2, 1, 4, 3, 6, 5,
        5, 3, 1, 6, 4, 2, 9, 7, 8,
        6, 4, 8, 9, 7, 1, 5, 3, 2,
        9, 7, 2, 5, 3, 8, 6, 4, 1,
    ];
    assert_eq!(board.cells(), second);

    let mut board = Board::new();
    let mut count = 1;
    assert!(Board::count_solutions(&mut board, &mut count));
    assert_eq!(count, 2);
    let first: [u8; 81] = [
        1, 2, 3, 4, 5, 6, 7, 8, 9,
        4, 5, 6, 7, 8, 9, 1, 2, 3,
        7, 8, 9, 1, 2, 3, 4, 5, 6,
        2, 1, 4, 3, 6, 5, 8, 9, 7,
        3, 6, 5, 8, 9, 7, 2, 1, 4,
        8, 9, 7, 2, 1, 4, 3, 6, 5,
        5, 3, 1, 6, 4, 2, 9, 7, 8,
        6, 4, 2, 9, 7, 8, 5, 3, 1,
        9, 7, 8, 5, 3, 1, 6, 4, 2,
    ];
    assert_eq!(board.cells(), first);
}

#[test]
fn count_solutions_returns_true_exactly_when_the_counter_exceeds_one() {
    let fixtures = [
        solve_puzzle_cells(),
        solve_swappable_cells(),
        solve_twice_swappable_cells(),
        solve_stuck_cells(),
        [0u8; 81],
    ];
    for cells in fixtures {
        for start in [0u32, 1] {
            let mut board = Board::from_cells(cells).unwrap();
            let mut count = start;
            let stopped = Board::count_solutions(&mut board, &mut count);
            assert_eq!(stopped, count > 1);
            assert!(count <= 2);
            if stopped {
                assert!(board.is_filled());
                assert!(board.is_well_formed());
                for index in 0..81 {
                    assert!(cells[index] == 0 || cells[index] == board.get(index));
                }
            } else {
                assert_eq!(board.cells(), cells);
            }
        }
    }
}

#[test]
fn count_solutions_counts_nothing_on_a_stuck_board() {
    let mut board = Board::from_cells(solve_stuck_cells()).unwrap();
    let mut count = 0;
    assert!(!Board::count_solutions(&mut board, &mut count));
    assert_eq!(count, 0);
    assert_eq!(board.cells(), solve_stuck_cells());
    let mut count = 1;
    assert!(!Board::count_solutions(&mut board, &mut count));
    assert_eq!(count, 1);
}
