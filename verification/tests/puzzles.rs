use sudoku_solver_rust::sudoku::solver::SolverAlgorithm;
use sudoku_solver_rust::sudoku::Sudoku;

const PUZZLE: &str = "530070000600195000098000060800060003400803001700020006060000280000419005000080079";
const SOLUTION: &str = "534678912672195348198342567859761423426853791713924856961537284287419635345286179";
const LEAST_GRID: &str = "123456789456789123789123456214365897365897214897214365531642978642978531978531642";
const HARD_PUZZLE: &str = "800000000003600000070090200050007000000045700000100030001000068008500010090000400";
const HARD_SOLUTION: &str = "812753649943682175675491283154237896369845721287169534521974368438526917796318452";

fn grid_line(sudoku: &Sudoku) -> String {
    let mut line = String::new();
    for row in 0..9 {
        for column in 0..9 {
            line.push(sudoku.cell(row, column));
        }
    }
    line
}

fn keeps_clues(solution: &str, puzzle: &str) -> bool {
    solution.chars().zip(puzzle.chars()).all(|(s, p)| p == '0' || s == p)
}

#[test]
fn both_policies_solve_the_fixture_alike() {
    let mut naive = Sudoku::create_board(PUZZLE.to_string()).unwrap();
    let mut heuristic = Sudoku::create_board(PUZZLE.to_string()).unwrap();
    assert!(naive.solve_sudoku(&SolverAlgorithm::Simple));
    assert!(heuristic.solve_sudoku(&SolverAlgorithm::MostRestricted));
    assert!(naive.check_sudoku_completed());
    assert!(heuristic.check_sudoku_completed());
    assert_eq!(grid_line(&naive), SOLUTION);
    assert_eq!(grid_line(&heuristic), SOLUTION);
    assert!(keeps_clues(&grid_line(&naive), PUZZLE));
    assert!(keeps_clues(&grid_line(&heuristic), PUZZLE));
}

#[test]
fn puzzle_that_needs_backtracking_is_solved_alike_by_every_policy() {
    let mut naive = Sudoku::create_board(HARD_PUZZLE.to_string()).unwrap();
    assert!(naive.solve_sudoku(&SolverAlgorithm::Simple));
    assert_eq!(grid_line(&naive), HARD_SOLUTION);
    let mut heuristic = Sudoku::create_board(HARD_PUZZLE.to_string()).unwrap();
    assert!(heuristic.solve_sudoku(&SolverAlgorithm::MostRestricted));
    assert_eq!(grid_line(&heuristic), HARD_SOLUTION);
    let mut cached = Sudoku::create_board(HARD_PUZZLE.to_string()).unwrap();
    assert!(cached.solve_with_storing_empty_cell_options());
    assert_eq!(grid_line(&cached), HARD_SOLUTION);
    assert!(keeps_clues(HARD_SOLUTION, HARD_PUZZLE));
}

#[test]
fn entry_points_of_the_policies_solve_the_fixture() {
    let mut naive = Sudoku::create_board(PUZZLE.to_string()).unwrap();
    assert!(naive.simple_solver());
    assert_eq!(grid_line(&naive), SOLUTION);
    let mut heuristic = Sudoku::create_board(PUZZLE.to_string()).unwrap();
    assert!(heuristic.solve_from_most_restricted_cell());
    assert_eq!(grid_line(&heuristic), SOLUTION);
    let mut cached = Sudoku::create_board(PUZZLE.to_string()).unwrap();
    assert!(cached.solve_with_storing_empty_cell_options());
    assert_eq!(grid_line(&cached), SOLUTION);
}

#[test]
fn search_itself_solves_the_fixture() {
    let mut naive = Sudoku::create_board(PUZZLE.to_string()).unwrap();
    assert_eq!(naive.fill_value_and_check(), Ok(()));
    assert_eq!(grid_line(&naive), SOLUTION);
    let mut heuristic = Sudoku::create_board(PUZZLE.to_string()).unwrap();
    assert_eq!(heuristic.fill_value_and_check_most_restricted(), Ok(()));
    assert_eq!(grid_line(&heuristic), SOLUTION);
}

#[test]
fn empty_board_is_solved_by_every_policy() {
    let mut naive = Sudoku::create_board("0".repeat(81)).unwrap();
    assert!(naive.solve_sudoku(&SolverAlgorithm::Simple));
    assert!(naive.check_sudoku_completed());
    let mut heuristic = Sudoku::create_board("0".repeat(81)).unwrap();
    assert!(heuristic.solve_sudoku(&SolverAlgorithm::MostRestricted));
    assert!(heuristic.check_sudoku_completed());
    let mut cached = Sudoku::create_board("0".repeat(81)).unwrap();
    assert!(cached.solve_with_storing_empty_cell_options());
    assert!(cached.check_sudoku_completed());
}

#[test]
fn first_empty_cell_policy_finds_the_least_grid() {
    let mut sudoku = Sudoku::create_board("0".repeat(81)).unwrap();
    assert!(sudoku.simple_solver());
    assert_eq!(grid_line(&sudoku), LEAST_GRID);
}

#[test]
fn first_empty_cell_policy_finds_the_least_of_two_solutions() {
    // Rows 3 and 4 of the solution hold 1 and 3 crosswise in columns 5 and 8,
    // so with these four cells empty the puzzle has two solutions.
    let mut puzzle = SOLUTION.to_string().into_bytes();
    let mut other = SOLUTION.to_string().into_bytes();
    for (row, column, digit) in [(3, 5, b'1'), (3, 8, b'3'), (4, 5, b'3'), (4, 8, b'1')] {
        assert_eq!(puzzle[row * 9 + column], digit);
        puzzle[row * 9 + column] = b'0';
        other[row * 9 + column] = if digit == b'1' { b'3' } else { b'1' };
    }
    let puzzle = String::from_utf8(puzzle).unwrap();
    let other = String::from_utf8(other).unwrap();
    assert!(Sudoku::create_board(other.clone()).unwrap().check_sudoku_completed());
    assert!(SOLUTION < other.as_str());

    let mut naive = Sudoku::create_board(puzzle.clone()).unwrap();
    assert!(naive.simple_solver());
    assert_eq!(grid_line(&naive), SOLUTION);
    let mut heuristic = Sudoku::create_board(puzzle.clone()).unwrap();
    assert!(heuristic.solve_from_most_restricted_cell());
    assert!(heuristic.check_sudoku_completed());
    assert!(keeps_clues(&grid_line(&heuristic), &puzzle));
    let mut cached = Sudoku::create_board(puzzle.clone()).unwrap();
    assert!(cached.solve_with_storing_empty_cell_options());
    assert_eq!(grid_line(&cached), grid_line(&heuristic));
}

#[test]
fn duplicate_in_first_row_fails_at_once() {
    let mut line = String::from("11");
    line.push_str(&"0".repeat(79));
    let sudoku = Sudoku::create_board(line.clone()).unwrap();
    assert_eq!(sudoku.check_row_correctness(0), false);
    assert_eq!(sudoku.check_correctness_of_sudoku(), false);

    let mut naive = Sudoku::create_board(line.clone()).unwrap();
    assert_eq!(naive.solve_sudoku(&SolverAlgorithm::Simple), false);
    assert_eq!(grid_line(&naive), line);
    let mut heuristic = Sudoku::create_board(line.clone()).unwrap();
    assert_eq!(heuristic.solve_sudoku(&SolverAlgorithm::MostRestricted), false);
    assert_eq!(grid_line(&heuristic), line);
    let mut cached = Sudoku::create_board(line.clone()).unwrap();
    assert_eq!(cached.solve_with_storing_empty_cell_options(), false);
    assert_eq!(grid_line(&cached), line);
}

#[test]
fn cell_without_candidate_makes_every_policy_fail() {
    let line = "012345678\
                900000000\
                000000000\
                000000000\
                000000000\
                000000000\
                000000000\
                000000000\
                000000000";
    let mut naive = Sudoku::create_board(line.to_string()).unwrap();
    assert!(naive.check_correctness_of_sudoku());
    assert_eq!(naive.simple_solver(), false);
    assert_eq!(grid_line(&naive), line);
    let mut naive = Sudoku::create_board(line.to_string()).unwrap();
    assert_eq!(naive.fill_value_and_check(), Err(()));
    assert_eq!(grid_line(&naive), line);
    let mut heuristic = Sudoku::create_board(line.to_string()).unwrap();
    assert_eq!(heuristic.solve_from_most_restricted_cell(), false);
    assert_eq!(grid_line(&heuristic), line);
    let mut heuristic = Sudoku::create_board(line.to_string()).unwrap();
    assert_eq!(heuristic.fill_value_and_check_most_restricted(), Err(()));
    assert_eq!(grid_line(&heuristic), line);
    let mut cached = Sudoku::create_board(line.to_string()).unwrap();
    assert_eq!(cached.solve_with_storing_empty_cell_options(), false);
    assert_eq!(grid_line(&cached), line);
}

#[test]
fn dead_end_behind_a_choice_is_found_and_undone() {
    // The last two cells of the first row can only take 8 and 9, and the
    // last column already holds a 9 and the one before it an 8 and a 9.
    let line = "123456700\
                000000000\
                000000000\
                000000089\
                000000000\
                000000000\
                000000090\
                000000000\
                000000000";
    let mut naive = Sudoku::create_board(line.to_string()).unwrap();
    assert!(naive.check_correctness_of_sudoku());
    assert_eq!(naive.simple_solver(), false);
    assert_eq!(grid_line(&naive), line);
    let mut heuristic = Sudoku::create_board(line.to_string()).unwrap();
    assert_eq!(heuristic.solve_from_most_restricted_cell(), false);
    assert_eq!(grid_line(&heuristic), line);
    let mut cached = Sudoku::create_board(line.to_string()).unwrap();
    assert_eq!(cached.solve_with_storing_empty_cell_options(), false);
    assert_eq!(grid_line(&cached), line);
}

#[test]
fn solved_board_is_left_alone() {
    let mut sudoku = Sudoku::create_board(SOLUTION.to_string()).unwrap();
    assert!(sudoku.solve_sudoku(&SolverAlgorithm::Simple));
    assert_eq!(grid_line(&sudoku), SOLUTION);
    assert!(sudoku.solve_sudoku(&SolverAlgorithm::MostRestricted));
    assert_eq!(grid_line(&sudoku), SOLUTION);
    assert!(sudoku.solve_with_storing_empty_cell_options());
    assert_eq!(grid_line(&sudoku), SOLUTION);
    assert_eq!(sudoku.fill_value_and_check(), Ok(()));
    assert_eq!(sudoku.fill_value_and_check_most_restricted(), Ok(()));
    assert_eq!(grid_line(&sudoku), SOLUTION);
}

#[test]
fn full_board_with_a_repeated_digit_cannot_be_solved() {
    let mut line = SOLUTION.to_string().into_bytes();
    line[0] = b'3';
    let line = String::from_utf8(line).unwrap();
    let mut sudoku = Sudoku::create_board(line.clone()).unwrap();
    assert_eq!(sudoku.solve_sudoku(&SolverAlgorithm::Simple), false);
    assert_eq!(sudoku.solve_sudoku(&SolverAlgorithm::MostRestricted), false);
    assert_eq!(sudoku.solve_with_storing_empty_cell_options(), false);
    assert_eq!(sudoku.fill_value_and_check(), Err(()));
    assert_eq!(sudoku.fill_value_and_check_most_restricted(), Err(()));
    assert_eq!(grid_line(&sudoku), line);
}

#[test]
fn single_candidate_is_taken_before_fewer_are_looked_for() {
    // Scanning row by row, the cell at (0, 8) with its single candidate is
    // met first and taken, though (1, 0) has none.
    let line = "123456780\
                000000000\
                000000000\
                400000000\
                500000000\
                600000000\
                700000000\
                800000000\
                900000000";
    let sudoku = Sudoku::create_board(line.to_string()).unwrap();
    assert_eq!(sudoku.check_possible_values(1, 0), vec![]);
    assert_eq!(sudoku.choose_most_restricted_value(), Ok((0, 8, vec!['9'])));
    assert_eq!(sudoku.choose_first_possible_value(), Ok((0, 8, vec!['9'])));
}

#[test]
fn cell_without_candidate_met_first_ends_the_scan() {
    let line = "012345678\
                900000000\
                000000000\
                000000000\
                000000000\
                000000000\
                000000000\
                000000000\
                000000001";
    let sudoku = Sudoku::create_board(line.to_string()).unwrap();
    assert_eq!(sudoku.choose_most_restricted_value(), Err(()));
}

#[test]
fn first_of_the_cells_with_fewest_candidates_is_taken() {
    let line = "000000000\
                000000000\
                000000000\
                000123000\
                000000456\
                000000000\
                000000000\
                000000000\
                000000000";
    let sudoku = Sudoku::create_board(line.to_string()).unwrap();
    // Row 3 right of the clues: candidates 7, 8, 9. Row 4 left of the clues,
    // in the middle block: candidates 7, 8, 9 as well, but met later.
    assert_eq!(sudoku.choose_most_restricted_value(), Ok((3, 6, vec!['7', '8', '9'])));
    assert_eq!(
        sudoku.choose_first_possible_value(),
        Ok((0, 0, vec!['1', '2', '3', '4', '5', '6', '7', '8', '9']))
    );
}
