use sudoku::algorithm::CandidateMatrix;
use sudoku::entity::SudokuMatrixValue;
use sudoku::rulers::init;

#[test]
fn test_into_candidate_and_evolution() {
    init();

    let sudoku: SudokuMatrixValue = SudokuMatrixValue {
        matrix: [
            [0, 0, 0, 0, 0, 0, 0, 0, 0],
            [0, 1, 0, 0, 0, 0, 0, 0, 0],
            [0, 0, 2, 0, 0, 0, 0, 0, 0],
            [0, 0, 0, 3, 0, 0, 0, 0, 0],
            [0, 0, 0, 0, 0, 0, 0, 0, 0],
            [0, 0, 0, 0, 0, 0, 0, 0, 0],
            [0, 0, 0, 0, 0, 0, 0, 0, 0],
            [0, 0, 0, 0, 0, 0, 0, 0, 0],
            [0, 0, 0, 0, 0, 0, 0, 0, 0],
        ],
    };
    let can: CandidateMatrix = sudoku.into();
    // seeding already removes the known values of the box from (0, 0)
    assert_eq!(
        can.can_matrix[0][0].can,
        [false, false, true, true, true, true, true, true, true]
    );
    assert_eq!(
        can.can_matrix[1][1].can,
        [true, false, false, false, false, false, false, false, false]
    );
    assert_eq!(
        can.can_matrix[2][2].can,
        [false, true, false, false, false, false, false, false, false]
    );
    assert_eq!(
        can.can_matrix[3][3].can,
        [false, false, true, false, false, false, false, false, false]
    );

    let mut can = can;
    can.evolution();
    assert_eq!(can.can_matrix[8][8].can, [true; 9]);

    assert_eq!(
        can.can_matrix[0][0].can,
        [false, false, true, true, true, true, true, true, true]
    );

    assert_eq!(
        can.can_matrix[1][8].can,
        [false, true, true, true, true, true, true, true, true]
    );
    assert_eq!(
        can.can_matrix[8][2].can,
        [true, false, true, true, true, true, true, true, true]
    );

    assert_eq!(
        can.can_matrix[2][3].can,
        [true, false, false, true, true, true, true, true, true]
    );
}

#[test]
fn test_into() {
    init();

    let sudoku: SudokuMatrixValue = SudokuMatrixValue {
        matrix: [
            [0, 0, 0, 0, 0, 0, 0, 0, 0],
            [0, 1, 0, 0, 0, 0, 0, 0, 0],
            [0, 0, 2, 0, 0, 0, 0, 0, 0],
            [0, 0, 0, 3, 0, 0, 0, 0, 0],
            [0, 0, 0, 0, 0, 0, 0, 0, 0],
            [0, 0, 0, 0, 0, 0, 0, 0, 0],
            [0, 0, 0, 0, 0, 0, 0, 0, 0],
            [0, 0, 0, 0, 0, 0, 0, 0, 0],
            [0, 0, 0, 0, 0, 0, 0, 0, 0],
        ],
    };

    let can: CandidateMatrix = sudoku.into();
    let next_sudoku: SudokuMatrixValue = can.into();

    assert_eq!(sudoku, next_sudoku);
}

#[test]
fn test_evolution_and_into() {
    init();

    let sudoku: SudokuMatrixValue = SudokuMatrixValue {
        matrix: [
            [1, 0, 3, 4, 5, 6, 7, 8, 9],
            [0, 0, 0, 0, 0, 0, 0, 0, 0],
            [0, 0, 0, 0, 0, 0, 0, 0, 0],
            [0, 0, 0, 0, 0, 0, 0, 0, 0],
            [0, 0, 0, 0, 0, 0, 0, 0, 0],
            [0, 0, 0, 0, 0, 0, 0, 0, 0],
            [0, 0, 0, 0, 0, 0, 0, 0, 0],
            [0, 0, 0, 0, 0, 0, 0, 0, 0],
            [0, 0, 0, 0, 0, 0, 0, 0, 0],
        ],
    };

    let mut can: CandidateMatrix = sudoku.into();
    can.evolution();
    let next_sudoku: SudokuMatrixValue = can.into();
    assert_eq!(
        next_sudoku,
        SudokuMatrixValue {
            matrix: [
                [1, 2, 3, 4, 5, 6, 7, 8, 9],
                [0, 0, 0, 0, 0, 0, 0, 0, 0],
                [0, 0, 0, 0, 0, 0, 0, 0, 0],
                [0, 0, 0, 0, 0, 0, 0, 0, 0],
                [0, 0, 0, 0, 0, 0, 0, 0, 0],
                [0, 0, 0, 0, 0, 0, 0, 0, 0],
                [0, 0, 0, 0, 0, 0, 0, 0, 0],
                [0, 0, 0, 0, 0, 0, 0, 0, 0],
                [0, 0, 0, 0, 0, 0, 0, 0, 0],
            ],
        }
    );
}

#[test]
fn test_only_one_position() {
    init();

    let sudoku: SudokuMatrixValue = SudokuMatrixValue {
        matrix: [
            [0, 0, 0, 0, 0, 6, 0, 0, 0],
            [0, 0, 0, 0, 0, 0, 0, 0, 6],
            [1, 2, 0, 0, 0, 0, 0, 0, 0],
            [0, 0, 0, 0, 0, 0, 0, 0, 0],
            [0, 0, 0, 0, 0, 0, 0, 0, 0],
            [0, 0, 0, 0, 0, 0, 0, 0, 0],
            [0, 0, 0, 0, 0, 0, 0, 0, 0],
            [0, 0, 0, 0, 0, 0, 0, 0, 0],
            [0, 0, 0, 0, 0, 0, 0, 0, 0],
        ],
    };
    let mut can: CandidateMatrix = sudoku.into();
    can.evolution();
    can.evolution_by_check_position();
    let next_sudoku: SudokuMatrixValue = can.into();
    assert_eq!(
        next_sudoku,
        SudokuMatrixValue {
            matrix: [
                [0, 0, 0, 0, 0, 6, 0, 0, 0],
                [0, 0, 0, 0, 0, 0, 0, 0, 6],
                [1, 2, 6, 0, 0, 0, 0, 0, 0],
                [0, 0, 0, 0, 0, 0, 0, 0, 0],
                [0, 0, 0, 0, 0, 0, 0, 0, 0],
                [0, 0, 0, 0, 0, 0, 0, 0, 0],
                [0, 0, 0, 0, 0, 0, 0, 0, 0],
                [0, 0, 0, 0, 0, 0, 0, 0, 0],
                [0, 0, 0, 0, 0, 0, 0, 0, 0],
            ],
        }
    );
}

#[test]
fn test_much_position_in_same_other_partition() {
    init();

    let sudoku: SudokuMatrixValue = SudokuMatrixValue {
        matrix: [
            [0, 0, 0, 0, 0, 6, 0, 0, 0],
            [0, 0, 0, 0, 0, 0, 0, 0, 0],
            [1, 2, 0, 0, 0, 0, 0, 0, 0],
            [0, 0, 0, 0, 0, 0, 0, 0, 0],
            [0, 0, 0, 0, 0, 0, 0, 0, 0],
            [0, 0, 0, 0, 0, 0, 0, 0, 0],
            [0, 0, 0, 0, 0, 0, 0, 0, 0],
            [0, 0, 0, 0, 0, 0, 0, 0, 0],
            [0, 0, 6, 0, 0, 0, 0, 0, 0],
        ],
    };
    let mut can: CandidateMatrix = sudoku.into();
    can.evolution();
    can.evolution_by_check_position();
    assert_eq!(
        can.can_matrix[1][6].can,
        [true, true, true, true, true, false, true, true, true]
    );
    assert_eq!(
        can.can_matrix[1][7].can,
        [true, true, true, true, true, false, true, true, true]
    );
    assert_eq!(
        can.can_matrix[1][8].can,
        [true, true, true, true, true, false, true, true, true]
    );
}

#[test]
fn test_position_double_mutex() {
    init();

    let sudoku: SudokuMatrixValue = SudokuMatrixValue {
        matrix: [
            [0, 0, 0, 0, 0, 0, 0, 1, 2],
            [0, 0, 0, 0, 0, 0, 0, 0, 0],
            [0, 0, 0, 0, 0, 0, 0, 0, 0],
            [0, 0, 0, 0, 0, 0, 0, 0, 0],
            [0, 6, 0, 0, 0, 0, 0, 0, 0],
            [2, 1, 0, 0, 0, 0, 0, 0, 0],
            [0, 0, 0, 0, 0, 0, 0, 0, 0],
            [6, 0, 0, 0, 0, 0, 0, 0, 0],
            [1, 2, 0, 0, 0, 0, 0, 0, 0],
        ],
    };
    let mut can: CandidateMatrix = sudoku.into();
    can.evolution();
    can.evolution_by_position_mutex();
    can.evolution_by_check_position();
    let next_sudoku: SudokuMatrixValue = can.into();
    assert_eq!(
        next_sudoku,
        SudokuMatrixValue {
            matrix: [
                [0, 0, 6, 0, 0, 0, 0, 1, 2],
                [0, 0, 0, 0, 0, 0, 0, 0, 0],
                [0, 0, 0, 0, 0, 0, 0, 0, 0],
                [0, 0, 0, 0, 0, 0, 0, 0, 0],
                [0, 6, 0, 0, 0, 0, 0, 0, 0],
                [2, 1, 0, 0, 0, 0, 0, 0, 0],
                [0, 0, 0, 0, 0, 0, 0, 0, 0],
                [6, 0, 0, 0, 0, 0, 0, 0, 0],
                [1, 2, 0, 0, 0, 0, 0, 0, 0],
            ],
        }
    );
}

#[test]
fn test_position_triple_mutex() {
    init();

    let sudoku: SudokuMatrixValue = SudokuMatrixValue {
        matrix: [
            [0, 0, 0, 0, 0, 0, 0, 0, 6],
            [0, 0, 0, 0, 0, 6, 0, 0, 0],
            [0, 0, 0, 0, 0, 0, 0, 0, 0],
            [0, 0, 0, 0, 0, 0, 0, 0, 0],
            [3, 0, 0, 0, 0, 0, 0, 0, 0],
            [2, 1, 0, 0, 0, 0, 0, 0, 0],
            [0, 0, 0, 0, 0, 0, 0, 0, 0],
            [6, 3, 0, 0, 0, 0, 0, 0, 0],
            [1, 2, 0, 0, 0, 0, 0, 0, 0],
        ],
    };
    let mut can: CandidateMatrix = sudoku.into();
    can.evolution();
    can.evolution_by_position_mutex();
    can.evolution_by_check_position();
    let next_sudoku: SudokuMatrixValue = can.into();
    assert_eq!(
        next_sudoku,
        SudokuMatrixValue {
            matrix: [
                [0, 0, 0, 0, 0, 0, 0, 0, 6],
                [0, 0, 0, 0, 0, 6, 0, 0, 0],
                [0, 6, 0, 0, 0, 0, 0, 0, 0],
                [0, 0, 0, 0, 0, 0, 0, 0, 0],
                [3, 0, 0, 0, 0, 0, 0, 0, 0],
                [2, 1, 0, 0, 0, 0, 0, 0, 0],
                [0, 0, 0, 0, 0, 0, 0, 0, 0],
                [6, 3, 0, 0, 0, 0, 0, 0, 0],
                [1, 2, 0, 0, 0, 0, 0, 0, 0],
            ],
        }
    );
}
