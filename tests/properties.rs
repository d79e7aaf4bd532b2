use sudoku::algorithm::{Candidate, CandidateMatrix};
use sudoku::entity::SudokuMatrixValue;

fn grid(rows: [[usize; 9]; 9]) -> SudokuMatrixValue {
    SudokuMatrixValue { matrix: rows }
}

fn solved() -> [[usize; 9]; 9] {
    [
        [5, 3, 4, 6, 7, 8, 9, 1, 2],
        [6, 7, 2, 1, 9, 5, 3, 4, 8],
        [1, 9, 8, 3, 4, 2, 5, 6, 7],
        [8, 5, 9, 7, 6, 1, 4, 2, 3],
        [4, 2, 6, 8, 5, 3, 7, 9, 1],
        [7, 1, 3, 9, 2, 4, 8, 5, 6],
        [9, 6, 1, 5, 3, 7, 2, 8, 4],
        [2, 8, 7, 4, 1, 9, 6, 3, 5],
        [3, 4, 5, 2, 8, 6, 1, 7, 9],
    ]
}

fn puzzle() -> [[usize; 9]; 9] {
    [
        [5, 3, 0, 0, 7, 0, 0, 0, 0],
        [6, 0, 0, 1, 9, 5, 0, 0, 0],
        [0, 9, 8, 0, 0, 0, 0, 6, 0],
        [8, 0, 0, 0, 6, 0, 0, 0, 3],
        [4, 0, 0, 8, 0, 3, 0, 0, 1],
        [7, 0, 0, 0, 2, 0, 0, 0, 6],
        [0, 6, 0, 0, 0, 0, 2, 8, 0],
        [0, 0, 0, 4, 1, 9, 0, 0, 5],
        [0, 0, 0, 0, 8, 0, 0, 7, 9],
    ]
}

fn is_peer(r: usize, c: usize, r2: usize, c2: usize) -> bool {
    r == r2 || c == c2 || (r / 3 == r2 / 3 && c / 3 == c2 / 3)
}

fn bits(m: &CandidateMatrix) -> Vec<bool> {
    let mut out = Vec::new();
    for r in 0..9 {
        for c in 0..9 {
            out.extend_from_slice(&m.can_matrix[r][c].can);
        }
    }
    out
}

fn only_clears(before: &CandidateMatrix, after: &CandidateMatrix) -> bool {
    bits(before)
        .iter()
        .zip(bits(after).iter())
        .all(|(b, a)| !*a || *b)
}

#[test]
fn seeding_single_known_cell() {
    let mut rows = [[0; 9]; 9];
    rows[0][0] = 5;
    let can: CandidateMatrix = grid(rows).into();
    assert_eq!(
        can.can_matrix[0][1].can,
        [true, true, true, true, false, true, true, true, true]
    );
    assert_eq!(can.can_matrix[8][8].can, [true; 9]);
    assert_eq!(can.can_matrix[0][0].only(), Some(5));
}

#[test]
fn naked_single_gives_missing_value() {
    let mut rows = [[0; 9]; 9];
    rows[3] = [9, 8, 7, 0, 5, 4, 3, 2, 1];
    let mut can: CandidateMatrix = grid(rows).into();
    can.evolution();
    assert_eq!(
        can.can_matrix[3][3].can,
        [false, false, false, false, false, true, false, false, false]
    );
    let back: SudokuMatrixValue = can.into();
    assert_eq!(back.matrix[3], [9, 8, 7, 6, 5, 4, 3, 2, 1]);
}

#[test]
fn round_trip_empty_grid() {
    let g = SudokuMatrixValue::new();
    let can: CandidateMatrix = g.into();
    let back: SudokuMatrixValue = can.into();
    assert_eq!(back, g);
}

#[test]
fn round_trip_full_grid() {
    let g = grid(solved());
    let can: CandidateMatrix = g.into();
    assert!(can.finished());
    let back: SudokuMatrixValue = can.into();
    assert_eq!(back, g);
}

#[test]
fn round_trip_full_grid_that_breaks_the_rules() {
    let g = grid([[7; 9]; 9]);
    let can: CandidateMatrix = g.into();
    let back: SudokuMatrixValue = can.into();
    assert_eq!(back, g);
}

#[test]
fn seeding_clears_value_from_all_peers() {
    let mut rows = [[0; 9]; 9];
    rows[4][4] = 7;
    let can: CandidateMatrix = grid(rows).into();
    for r in 0..9 {
        for c in 0..9 {
            if (r, c) == (4, 4) {
                assert_eq!(can.can_matrix[r][c].only(), Some(7));
            } else {
                assert_eq!(can.can_matrix[r][c].can[6], !is_peer(4, 4, r, c));
            }
        }
    }
}

#[test]
fn passes_only_clear_bits() {
    let mut can: CandidateMatrix = grid(puzzle()).into();
    for _ in 0..3 {
        let before = can;
        can.evolution();
        assert!(only_clears(&before, &can));
        let before = can;
        can.evolution_by_position_mutex();
        assert!(only_clears(&before, &can));
        let before = can;
        can.evolution_by_check_position();
        assert!(only_clears(&before, &can));
    }
}

#[test]
fn passes_at_fixed_point_change_nothing() {
    let mut can: CandidateMatrix = grid(puzzle()).into();
    loop {
        let before = can;
        can.evolution();
        can.evolution_by_position_mutex();
        can.evolution_by_check_position();
        if before == can {
            break;
        }
    }
    let fixed = can;
    can.evolution();
    assert!(can == fixed);
    can.evolution();
    assert!(can == fixed);
    can.evolution_by_position_mutex();
    assert!(can == fixed);
    can.evolution_by_check_position();
    assert!(can == fixed);
}

#[test]
fn propagation_solves_easy_puzzle() {
    let mut can: CandidateMatrix = grid(puzzle()).into();
    while !can.finished() {
        let before = can;
        can.evolution();
        can.evolution_by_position_mutex();
        can.evolution_by_check_position();
        assert!(before != can);
    }
    let back: SudokuMatrixValue = can.into();
    assert_eq!(back, grid(solved()));
}

#[test]
fn hidden_single_in_a_box() {
    // 4 is ruled out of every cell of the top-left box but (2, 2)
    let mut can = CandidateMatrix::new();
    for r in 0..3 {
        for c in 0..3 {
            if (r, c) != (2, 2) {
                can.can_matrix[r][c].can[3] = false;
            }
        }
    }
    can.evolution_by_check_position();
    assert_eq!(can.can_matrix[2][2].only(), Some(4));
}

#[test]
fn naked_pair_in_a_row() {
    // in row 0, only (0, 2) and (0, 6) admit 3 and 8
    let mut can = CandidateMatrix::new();
    for c in 0..9 {
        if c != 2 && c != 6 {
            can.can_matrix[0][c].can[2] = false;
            can.can_matrix[0][c].can[7] = false;
        }
    }
    can.evolution_by_position_mutex();
    let pair = [false, false, true, false, false, false, false, true, false];
    assert_eq!(can.can_matrix[0][2].can, pair);
    assert_eq!(can.can_matrix[0][6].can, pair);
    assert_eq!(can.can_matrix[0][0].can[0], true);
}

#[test]
fn naked_triple_in_a_column() {
    // in column 5, only rows 1, 4 and 7 admit 1, 2 and 9
    let mut can = CandidateMatrix::new();
    for r in 0..9 {
        if r != 1 && r != 4 && r != 7 {
            can.can_matrix[r][5].can[0] = false;
            can.can_matrix[r][5].can[1] = false;
            can.can_matrix[r][5].can[8] = false;
        }
    }
    can.evolution_by_position_mutex();
    let triple = [true, true, false, false, false, false, false, false, true];
    assert_eq!(can.can_matrix[1][5].can, triple);
    assert_eq!(can.can_matrix[4][5].can, triple);
    assert_eq!(can.can_matrix[7][5].can, triple);
}

#[test]
fn pointing_pair_clears_rest_of_box() {
    // in row 0, only (0, 0) and (0, 1) admit 5; they share box 0
    let mut can = CandidateMatrix::new();
    for c in 2..9 {
        can.can_matrix[0][c].can[4] = false;
    }
    can.evolution_by_check_position();
    assert!(can.can_matrix[0][0].can[4]);
    assert!(can.can_matrix[0][1].can[4]);
    for r in 1..3 {
        for c in 0..3 {
            assert!(!can.can_matrix[r][c].can[4]);
        }
    }
    assert!(can.can_matrix[3][0].can[4]);
}

#[test]
fn candidate_only_and_constructors() {
    assert_eq!(Candidate::new_all().only(), None);
    assert_eq!(Candidate::new_none().only(), None);
    let mut c = Candidate::new_none();
    c.can[8] = true;
    assert_eq!(c.only(), Some(9));
    c.can[0] = true;
    assert_eq!(c.only(), None);
    assert!(Candidate::new_all() == Candidate::new_all());
    assert!(Candidate::new_all() != Candidate::new_none());
}

#[test]
fn finished_needs_every_cell_determined() {
    let mut can: CandidateMatrix = grid(solved()).into();
    assert!(can.finished());
    can.can_matrix[8][8].can[0] = true;
    assert!(!can.finished());
    assert!(!CandidateMatrix::new().finished());
}
