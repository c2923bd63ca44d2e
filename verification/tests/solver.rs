use sudoku_solver_rust::sudoku::Sudoku;

#[test]
fn solver_fill_empty_sudoku() {
    let mut sudoku = Sudoku::create_board(
        "000000000\
         000000000\
         000000000\
         000000000\
         000000000\
         000000000\
         000000000\
         000000000\
         000000000"
            .to_string(),
    )
    .unwrap();
    sudoku.fill_value_and_check().unwrap();
    assert!(sudoku.check_correctness_of_sudoku());
}

#[test]
fn solver_get_index_and_possible_values_of_empty_sudoku() {
    let sudoku = Sudoku::create_board(
        "000000000\
         000000000\
         000000000\
         000000000\
         000000000\
         000000000\
         000000000\
         000000000\
         000000000"
            .to_string(),
    )
    .unwrap();
    assert_eq!(
        sudoku.choose_first_possible_value().unwrap(),
        (0, 0, vec!['1', '2', '3', '4', '5', '6', '7', '8', '9'])
    );
}

#[test]
fn solver_get_error_when_looking_for_value_to_fill_on_full_suduku() {
    let sudoku = Sudoku::create_board(
        "123456789\
         456789123\
         789123456\
         234567891\
         567891234\
         891234567\
         345678912\
         678912345\
         912345678"
            .to_string(),
    )
    .unwrap();
    assert_eq!(sudoku.choose_first_possible_value(), Err(()));
}

#[test]
fn solver_get_error_when_looking_for_value_in_blocked_cell() {
    let sudoku = Sudoku::create_board(
        "012345678\
         900000000\
         000000000\
         000000000\
         000000000\
         000000000\
         000000000\
         000000000\
         000000000"
            .to_string(),
    )
    .unwrap();
    assert_eq!(sudoku.choose_first_possible_value(), Err(()));
}
#[test]
fn solver_get_value_when_looking_for_value_in_sudoku() {
    let sudoku = Sudoku::create_board(
        "012345678\
         000000000\
         000000000\
         000000000\
         000000000\
         000000000\
         000000000\
         000000000\
         000000000"
            .to_string(),
    )
    .unwrap();
    assert_eq!(
        sudoku.choose_first_possible_value().unwrap(),
        (0, 0, vec!['9'])
    );

    let sudoku = Sudoku::create_board(
        "123456789\
         456789123\
         789123456\
         234567891\
         567891234\
         891200067\
         345678912\
         678912345\
         912305678"
            .to_string(),
    )
    .unwrap();
    assert_eq!(
        sudoku.choose_first_possible_value().unwrap(),
        (5, 4, vec!['3', '4'])
    );
}

#[test]
fn solver_get_possible_values_of_empty_sudoku() {
    let sudoku = Sudoku::create_board(
        "000000000\
         000000000\
         000000000\
         000000000\
         000000000\
         000000000\
         000000000\
         000000000\
         000000000"
            .to_string(),
    )
    .unwrap();
    assert_eq!(
        sudoku.check_possible_values(0, 0),
        vec!['1', '2', '3', '4', '5', '6', '7', '8', '9']
    );
    assert_eq!(
        sudoku.check_possible_values(8, 2),
        vec!['1', '2', '3', '4', '5', '6', '7', '8', '9']
    );
    assert_eq!(
        sudoku.check_possible_values(3, 6),
        vec!['1', '2', '3', '4', '5', '6', '7', '8', '9']
    );
    assert_eq!(
        sudoku.check_possible_values(7, 7),
        vec!['1', '2', '3', '4', '5', '6', '7', '8', '9']
    );
}

#[test]
fn solver_get_possible_values_of_filled_sudoku() {
    let sudoku = Sudoku::create_board(
        "123456789\
         456789123\
         789123456\
         234567891\
         567891234\
         891234567\
         345678912\
         678912345\
         912345678"
            .to_string(),
    )
    .unwrap();
    assert_eq!(sudoku.check_possible_values(0, 0), vec![]);
    assert_eq!(sudoku.check_possible_values(8, 2), vec![]);
    assert_eq!(sudoku.check_possible_values(3, 6), vec![]);
    assert_eq!(sudoku.check_possible_values(7, 7), vec![]);
}
#[test]
fn solver_get_possible_values_for_partiall_filled_row() {
    let sudokus: Vec<Sudoku> = vec![
        Sudoku::create_board(
            "123400000\
             000000000\
             000000000\
             000000000\
             000000000\
             000000000\
             000000000\
             000000000\
             000000000"
                .to_string(),
        )
        .unwrap(),
        Sudoku::create_board(
            "000000000\
             000000000\
             000123400\
             000000000\
             000000000\
             000000000\
             000000000\
             000000000\
             000000000"
                .to_string(),
        )
        .unwrap(),
        Sudoku::create_board(
            "000000000\
             000000000\
             000000000\
             000000000\
             000123400\
             000000000\
             000000000\
             000000000\
             000000000"
                .to_string(),
        )
        .unwrap(),
    ];
    for (index, sudoku) in sudokus.iter().enumerate() {
        assert_eq!(
            sudoku.check_possible_values(index * 2, 0),
            vec!['5', '6', '7', '8', '9']
        );
        assert_eq!(
            sudoku.check_possible_values(index * 2, 4),
            vec!['5', '6', '7', '8', '9']
        );
        assert_eq!(
            sudoku.check_possible_values(index * 2, 8),
            vec!['5', '6', '7', '8', '9']
        );
    }
}

#[test]
fn solver_get_possible_values_for_partiall_filled_column() {
    let sudokus: Vec<Sudoku> = vec![
        Sudoku::create_board(
            "100000000\
             200000000\
             300000000\
             400000000\
             000000000\
             000000000\
             000000000\
             000000000\
             000000000"
                .to_string(),
        )
        .unwrap(),
        Sudoku::create_board(
            "000000000\
             000000000\
             000000000\
             001000000\
             002000000\
             003000000\
             004000000\
             000000000\
             000000000"
                .to_string(),
        )
        .unwrap(),
        Sudoku::create_board(
            "000000000\
             000000000\
             000000000\
             000000000\
             000000000\
             000010000\
             000020000\
             000030000\
             000040000"
                .to_string(),
        )
        .unwrap(),
    ];
    for (index, sudoku) in sudokus.iter().enumerate() {
        assert_eq!(
            sudoku.check_possible_values(0, index * 2),
            vec!['5', '6', '7', '8', '9']
        );
        assert_eq!(
            sudoku.check_possible_values(4, index * 2),
            vec!['5', '6', '7', '8', '9']
        );
        assert_eq!(
            sudoku.check_possible_values(8, index * 2),
            vec!['5', '6', '7', '8', '9']
        );
    }
}
#[test]
fn solver_get_possible_values_for_partiall_filled_block() {
    let sudokus: Vec<Sudoku> = vec![
        Sudoku::create_board(
            "120000000\
             030000000\
             004000000\
             000000000\
             000000000\
             000000000\
             000000000\
             000000000\
             000000000"
                .to_string(),
        )
        .unwrap(),
        Sudoku::create_board(
            "000000000\
             000000000\
             000000000\
             000104000\
             000003000\
             000020000\
             004000000\
             000000000\
             000000000"
                .to_string(),
        )
        .unwrap(),
        Sudoku::create_board(
            "000000000\
             000000000\
             000000000\
             000000000\
             000000000\
             000000000\
             000000100\
             000000040\
             000000032"
                .to_string(),
        )
        .unwrap(),
    ];
    for (index, sudoku) in sudokus.iter().enumerate() {
        assert_eq!(
            sudoku.check_possible_values(index * 3 + 0, index * 3),
            vec!['5', '6', '7', '8', '9']
        );
        assert_eq!(
            sudoku.check_possible_values(index * 3 + 1, index * 3),
            vec!['5', '6', '7', '8', '9']
        );
        assert_eq!(
            sudoku.check_possible_values(index * 3 + 2, index * 3),
            vec!['5', '6', '7', '8', '9']
        );
    }
}
