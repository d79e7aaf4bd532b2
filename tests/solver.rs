use sudoku::algorithm::CandidateMatrix;
use sudoku::entity::{is_sudoku_value, new_sudoku_matrix, SudokuMatrixValue};
use sudoku::guess::SudokuSolver;
use sudoku::parse::from_string;
use sudoku::rulers::{each_sudoku_partition, get_sudoku_ruler_loop, get_sudoku_ruler_partition_map, init};

fn rule_valid(g: &SudokuMatrixValue) -> bool {
    for r in 0..9 {
        for c in 0..9 {
            let v = g.matrix[r][c];
            if !(1..=9).contains(&v) {
                return false;
            }
            for r2 in 0..9 {
                for c2 in 0..9 {
                    let peer = r == r2 || c == c2 || (r / 3 == r2 / 3 && c / 3 == c2 / 3);
                    if peer && (r, c) != (r2, c2) && g.matrix[r2][c2] == v {
                        return false;
                    }
                }
            }
        }
    }
    true
}

fn solve_all(g: SudokuMatrixValue) -> Vec<SudokuMatrixValue> {
    let can: CandidateMatrix = g.into();
    let mut solver = SudokuSolver::from(can);
    solver.solver_possible();
    solver.get_all_possible_sudoku().clone()
}

#[test]
fn one_gap_with_two_fitting_values() {
    let mut rows = [[9; 9]; 9];
    rows[0] = [0, 3, 4, 5, 6, 7, 8, 9, 9];
    for r in 1..9 {
        rows[r][0] = rows[0][r];
    }
    let start = SudokuMatrixValue { matrix: rows };
    let found = solve_all(start);
    assert_eq!(found.len(), 2);
    assert_eq!(found[0].matrix[0][0], 1);
    assert_eq!(found[1].matrix[0][0], 2);
    for g in &found {
        for r in 0..9 {
            for c in 0..9 {
                if (r, c) != (0, 0) {
                    assert_eq!(g.matrix[r][c], start.matrix[r][c]);
                }
            }
        }
    }
}

#[test]
fn one_gap_in_a_solved_grid() {
    let mut rows = [
        [5, 3, 4, 6, 7, 8, 9, 1, 2],
        [6, 7, 2, 1, 9, 5, 3, 4, 8],
        [1, 9, 8, 3, 4, 2, 5, 6, 7],
        [8, 5, 9, 7, 6, 1, 4, 2, 3],
        [4, 2, 6, 8, 5, 3, 7, 9, 1],
        [7, 1, 3, 9, 2, 4, 8, 5, 6],
        [9, 6, 1, 5, 3, 7, 2, 8, 4],
        [2, 8, 7, 4, 1, 9, 6, 3, 5],
        [3, 4, 5, 2, 8, 6, 1, 7, 9],
    ];
    let full = SudokuMatrixValue { matrix: rows };
    rows[6][6] = 0;
    let found = solve_all(SudokuMatrixValue { matrix: rows });
    assert_eq!(found, vec![full]);
}

#[test]
fn enumeration_finds_every_valid_completion() {
    // a unique puzzle with its first row emptied has several completions
    let rows = [
        [0, 0, 0, 0, 0, 0, 0, 0, 0],
        [6, 7, 2, 1, 9, 5, 3, 4, 8],
        [1, 9, 8, 3, 4, 2, 5, 6, 7],
        [8, 5, 9, 7, 6, 1, 4, 2, 3],
        [4, 2, 6, 8, 5, 3, 7, 9, 1],
        [7, 1, 3, 9, 2, 4, 8, 5, 6],
        [9, 6, 1, 5, 3, 7, 2, 8, 4],
        [2, 8, 7, 4, 1, 0, 6, 3, 5],
        [3, 4, 5, 2, 0, 6, 1, 7, 9],
    ];
    let found = solve_all(SudokuMatrixValue { matrix: rows });
    assert!(!found.is_empty());
    for (i, g) in found.iter().enumerate() {
        assert!(rule_valid(g));
        for r in 0..9 {
            for c in 0..9 {
                if is_sudoku_value(rows[r][c]) {
                    assert_eq!(g.matrix[r][c], rows[r][c]);
                }
            }
        }
        for h in &found[i + 1..] {
            assert!(g != h);
            assert!(g.matrix < h.matrix);
        }
    }
}

#[test]
fn contradiction_gives_no_completion() {
    let mut rows = [[0; 9]; 9];
    rows[0] = [0, 1, 2, 3, 4, 5, 6, 7, 0];
    rows[1][0] = 8;
    rows[2][8] = 9;
    rows[3][0] = 9;
    rows[4][8] = 8;
    let mut can: CandidateMatrix = SudokuMatrixValue { matrix: rows }.into();
    can.evolution();
    let mut solver = SudokuSolver::from(can);
    solver.solver_possible();
    assert!(solver.get_all_possible_sudoku().is_empty());
}

#[test]
fn parses_digits_and_skips_other_text() {
    let text = String::from("53..7....\n6..195...\n.98....6.\n8...6...3\n4..8.3..1\n7...2...6\n.6....28.\n...419..5\n....8..79\n");
    let g = from_string(&text);
    // dots are skipped, so the 30 digits fill the first cells
    assert_eq!(g.matrix[0], [5, 3, 7, 6, 1, 9, 5, 9, 8]);
    assert_eq!(g.matrix[3], [8, 7, 9, 0, 0, 0, 0, 0, 0]);
    assert_eq!(g.matrix[4], [0; 9]);

    let text = String::from("530070000 600195000 098000060 800060003 400803001 700020006 060000280 000419005 000080079");
    let g = from_string(&text);
    assert_eq!(g.matrix[0], [5, 3, 0, 0, 7, 0, 0, 0, 0]);
    assert_eq!(g.matrix[8], [0, 0, 0, 0, 8, 0, 0, 7, 9]);
}

#[test]
fn parse_stops_after_81_digits_and_pads_short_input() {
    let text = "1".repeat(90);
    let g = from_string(&text);
    assert_eq!(g.matrix, [[1; 9]; 9]);

    let g = from_string(&String::from("x12y3"));
    assert_eq!(g.matrix[0], [1, 2, 3, 0, 0, 0, 0, 0, 0]);
    assert_eq!(g.matrix[1], [0; 9]);
}

#[test]
fn catalog_geometry() {
    let rulers = init();
    let all = each_sudoku_partition(&rulers);
    assert_eq!(all.len(), 27);
    assert_eq!(all[0].0, 0);
    assert_eq!(all[9].0, 1);
    assert_eq!(all[26].0, 2);
    assert_eq!(all[10].1[4], (4, 1));
    assert_eq!(all[23].1, [(3, 6), (3, 7), (3, 8), (4, 6), (4, 7), (4, 8), (5, 6), (5, 7), (5, 8)]);
    let around = get_sudoku_ruler_partition_map(&rulers, &(4, 7));
    assert_eq!(around[0][0], (4, 0));
    assert_eq!(around[1][8], (8, 7));
    assert_eq!(around[2][0], (3, 6));
    let families = get_sudoku_ruler_loop(&rulers);
    assert_eq!(families[2].partitions[8][8], (8, 8));
}

#[test]
fn grid_helpers() {
    assert!(is_sudoku_value(1));
    assert!(is_sudoku_value(9));
    assert!(!is_sudoku_value(0));
    assert!(!is_sudoku_value(10));
    assert_eq!(new_sudoku_matrix(3u8), [[3u8; 9]; 9]);
    let mut g = SudokuMatrixValue::new();
    assert_eq!(g.next_empty_value(), Some((0, 0)));
    g.matrix = [[4; 9]; 9];
    assert_eq!(g.next_empty_value(), None);
    g.matrix[5][2] = 0;
    g.matrix[7][1] = 0;
    assert_eq!(g.next_empty_value(), Some((5, 2)));
}

#[test]
fn most_probable_cell_of_an_all_zero_map_is_origin() {
    let pmap = sudoku::probability::ProbabilyMap::new();
    assert_eq!(pmap.find_most_probabily(), (0, 0));
}
