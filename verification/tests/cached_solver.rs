use sudoku_solver_rust::sudoku::solver::SolverAlgorithm;
use sudoku_solver_rust::sudoku::Sudoku;

const PUZZLE: &str = "530070000600195000098000060800060003400803001700020006060000280000419005000080079";
const SOLUTION: &str = "534678912672195348198342567859761423426853791713924856961537284287419635345286179";

fn read_back(sudoku: &Sudoku) -> String {
    let mut line = String::new();
    for row in 0..9 {
        for column in 0..9 {
            line.push(sudoku.cell(row, column));
        }
    }
    line
}

#[test]
fn cached_solver_solves_the_fixture() {
    let mut sudoku = Sudoku::create_board(PUZZLE.to_string()).unwrap();
    assert!(sudoku.solve_with_storing_empty_cell_options());
    assert!(sudoku.check_sudoku_completed());
    assert_eq!(read_back(&sudoku), SOLUTION);
}

#[test]
fn cached_solver_agrees_with_most_restricted_on_empty_board() {
    let mut cached = Sudoku::create_board("0".repeat(81)).unwrap();
    let mut plain = Sudoku::create_board("0".repeat(81)).unwrap();
    assert!(cached.solve_with_storing_empty_cell_options());
    assert!(plain.solve_sudoku(&SolverAlgorithm::MostRestricted));
    assert!(cached.check_sudoku_completed());
    assert_eq!(read_back(&cached), read_back(&plain));
}
