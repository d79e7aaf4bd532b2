//! A heuristic score per empty cell: how many known values its row, column
//! and box hold together.

use vstd::prelude::*;
use crate::entity::{is_sudoku_value, new_sudoku_matrix, spec_is_sudoku_value, SudokuMatrix, SudokuValueType, SQUARE_OUTER_LEN};
use crate::rulers::{
    get_sudoku_ruler_loop, in_grid, init, lemma_part_pos, lemma_pos_index, part_index, part_pos,
    pos_index, pos_is, RULER_COUNT,
};

verus! {

/// A grid of cell values to be scored.
pub struct ValueMap {
    pub value: SudokuMatrix<SudokuValueType>,
}

/// A score per cell.
#[derive(Debug, PartialEq)]
pub struct ProbabilyMap {
    pub value: SudokuMatrix<SudokuValueType>,
}

/// The number of known cells among the first `n` members of partition `i`
/// of family `f`.
pub open spec fn known_in(m: SudokuMatrix<SudokuValueType>, f: int, i: int, n: int) -> nat
    decreases n,
{
    if n <= 0 {
        0
    } else {
        let p = part_pos(f, i, n - 1);
        known_in(m, f, i, n - 1) + if spec_is_sudoku_value(m[p.0][p.1] as int) {
            1nat
        } else {
            0nat
        }
    }
}

/// The known cells that the partitions of (r, c) of the families below `f`
/// hold, counted once per partition.
pub open spec fn known_around(m: SudokuMatrix<SudokuValueType>, r: int, c: int, f: int) -> nat
    decreases f,
{
    if f <= 0 {
        0
    } else {
        known_around(m, r, c, f - 1) + known_in(m, f - 1, part_index(f - 1, r, c), 9)
    }
}

/// The score of cell (r, c): 0 for a known cell; for an empty one, the
/// known cells of its row, column and box added up.
pub open spec fn score(m: SudokuMatrix<SudokuValueType>, r: int, c: int) -> int {
    if spec_is_sudoku_value(m[r][c] as int) {
        0
    } else {
        known_around(m, r, c, 3) as int
    }
}

proof fn lemma_known_in_bound(m: SudokuMatrix<SudokuValueType>, f: int, i: int, n: int)
    ensures
        known_in(m, f, i, n) <= if n < 0 { 0 } else { n },
    decreases n,
{
    if n > 0 {
        lemma_known_in_bound(m, f, i, n - 1);
    }
}

proof fn lemma_known_around_bound(m: SudokuMatrix<SudokuValueType>, r: int, c: int, f: int)
    requires
        0 <= f,
    ensures
        known_around(m, r, c, f) <= 9 * f,
    decreases f,
{
    if f > 0 {
        lemma_known_around_bound(m, r, c, f - 1);
        lemma_known_in_bound(m, f - 1, part_index(f - 1, r, c), 9);
    }
}

impl ProbabilyMap {
    /// Every score is 0.
    pub fn new() -> (r: ProbabilyMap)
        ensures
            forall|i: int, j: int| in_grid(i, j) ==> #[trigger] r.value[i][j] == 0,
    {
        ProbabilyMap { value: new_sudoku_matrix(0) }
    }

    /// The first cell, in row-major order, with the highest score.
    pub fn find_most_probabily(self) -> (r: (usize, usize))
        ensures
            in_grid(r.0 as int, r.1 as int),
            forall|i: int, j: int| in_grid(i, j) ==> #[trigger] self.value[i][j] <= self.value[r.0 as int][r.1 as int],
            forall|i: int, j: int|
                in_grid(i, j) && (i < r.0 || (i == r.0 && j < r.1)) ==> #[trigger] self.value[i][j]
                    < self.value[r.0 as int][r.1 as int],
    {
        let mut max: usize = 0;
        let mut result: (usize, usize) = (0, 0);
        let mut row: usize = 0;
        while row < SQUARE_OUTER_LEN
            invariant
                row <= 9,
                in_grid(result.0 as int, result.1 as int),
                max == self.value[result.0 as int][result.1 as int] || (max == 0 && result == (0usize, 0usize)),
                forall|i: int, j: int| 0 <= i < row && 0 <= j < 9 ==> #[trigger] self.value[i][j] <= max,
                forall|i: int, j: int|
                    in_grid(i, j) && (i < result.0 || (i == result.0 && j < result.1)) ==> #[trigger] self.value[i][j] < max,
                row == 0 ==> result == (0usize, 0usize) && max == 0,
                result.0 < row || result == (0usize, 0usize),
            decreases 9 - row,
        {
            let mut col: usize = 0;
            while col < SQUARE_OUTER_LEN
                invariant
                    row < 9,
                    col <= 9,
                    in_grid(result.0 as int, result.1 as int),
                    max == self.value[result.0 as int][result.1 as int] || (max == 0 && result == (0usize, 0usize)),
                    forall|i: int, j: int|
                        ((0 <= i < row && 0 <= j < 9) || (i == row && 0 <= j < col)) ==> #[trigger] self.value[i][j] <= max,
                    forall|i: int, j: int|
                        in_grid(i, j) && (i < result.0 || (i == result.0 && j < result.1)) ==> #[trigger] self.value[i][j] < max,
                    row == 0 && col == 0 ==> result == (0usize, 0usize) && max == 0,
                    result.0 < row || (result.0 == row && result.1 <= col) || result == (0usize, 0usize),
                decreases 9 - col,
            {
                if self.value[row][col] > max {
                    max = self.value[row][col];
                    result = (row, col);
                }
                col += 1;
            }
            row += 1;
        }
        result
    }
}

impl vstd::std_specs::convert::FromSpecImpl<ValueMap> for ProbabilyMap {
    open spec fn obeys_from_spec() -> bool {
        false
    }

    open spec fn from_spec(map: ValueMap) -> ProbabilyMap {
        choose|p: ProbabilyMap| #[trigger] p.value.len() == 9 && forall|r: int, c: int| in_grid(r, c) ==> #[trigger] p.value[r][c] == score(map.value, r, c)
    }
}

impl From<ValueMap> for ProbabilyMap {
    /// Scores every cell of `map`.
    fn from(map: ValueMap) -> (pmap: ProbabilyMap)
        ensures
            forall|r: int, c: int| in_grid(r, c) ==> #[trigger] pmap.value[r][c] == score(map.value, r, c),
    {
        let rulers = init();
        let sudoku_loop = get_sudoku_ruler_loop(&rulers);
        let m = map.value;
        let mut pmap = ProbabilyMap::new();
        let mut f: usize = 0;
        while f < RULER_COUNT
            invariant
                f <= 3,
                m == map.value,
                forall|g: int, i: int, k: int|
                    0 <= g < 3 && 0 <= i < 9 && 0 <= k < 9 ==> pos_is(#[trigger] sudoku_loop[g].partitions[i][k], part_pos(g, i, k)),
                forall|r: int, c: int|
                    in_grid(r, c) ==> #[trigger] pmap.value[r][c] == if spec_is_sudoku_value(m[r][c] as int) {
                        0
                    } else {
                        known_around(m, r, c, f as int) as int
                    },
            decreases 3 - f,
        {
            let mut i: usize = 0;
            while i < SQUARE_OUTER_LEN
                invariant
                    f < 3,
                    i <= 9,
                    m == map.value,
                    forall|g: int, i: int, k: int|
                        0 <= g < 3 && 0 <= i < 9 && 0 <= k < 9 ==> pos_is(#[trigger] sudoku_loop[g].partitions[i][k], part_pos(g, i, k)),
                    forall|r: int, c: int|
                        in_grid(r, c) ==> #[trigger] pmap.value[r][c] == if spec_is_sudoku_value(m[r][c] as int) {
                            0
                        } else {
                            known_around(m, r, c, f as int) + if part_index(f as int, r, c) < i {
                                known_in(m, f as int, part_index(f as int, r, c), 9) as int
                            } else {
                                0
                            }
                        },
                decreases 9 - i,
            {
                let partition = sudoku_loop[f].partitions[i];
                let mut count: usize = 0;
                let mut k: usize = 0;
                while k < SQUARE_OUTER_LEN
                    invariant
                        f < 3,
                        i < 9,
                        k <= 9,
                        forall|k: int| 0 <= k < 9 ==> pos_is(#[trigger] partition[k], part_pos(f as int, i as int, k)),
                        count == known_in(m, f as int, i as int, k as int),
                        count <= k,
                    decreases 9 - k,
                {
                    let (x, y) = partition[k];
                    proof {
                        lemma_part_pos(f as int, i as int, k as int);
                    }
                    if is_sudoku_value(m[x][y]) {
                        count += 1;
                    }
                    k += 1;
                }
                let mut k: usize = 0;
                while k < SQUARE_OUTER_LEN
                    invariant
                        f < 3,
                        i < 9,
                        k <= 9,
                        count == known_in(m, f as int, i as int, 9),
                        count <= 9,
                        forall|k: int| 0 <= k < 9 ==> pos_is(#[trigger] partition[k], part_pos(f as int, i as int, k)),
                        forall|r: int, c: int|
                            in_grid(r, c) ==> #[trigger] pmap.value[r][c] == if spec_is_sudoku_value(m[r][c] as int) {
                                0
                            } else {
                                known_around(m, r, c, f as int) + if part_index(f as int, r, c) < i || (part_index(
                                    f as int,
                                    r,
                                    c,
                                ) == i && pos_index(f as int, r, c) < k) {
                                    known_in(m, f as int, part_index(f as int, r, c), 9) as int
                                } else {
                                    0
                                }
                            },
                        decreases 9 - k,
                {
                    let (x, y) = partition[k];
                    proof {
                        lemma_part_pos(f as int, i as int, k as int);
                        assert forall|r: int, c: int| in_grid(r, c) && part_index(f as int, r, c) == i && pos_index(f as int, r, c) == k
                            implies r == x && c == y by {
                            lemma_pos_index(f as int, r, c);
                        }
                        lemma_known_around_bound(m, x as int, y as int, f as int);
                    }
                    if !is_sudoku_value(m[x][y]) {
                        pmap.value[x][y] += count;
                    }
                    k += 1;
                }
                proof {
                    assert forall|r: int, c: int| in_grid(r, c) implies pos_index(f as int, r, c) < 9 by {
                        lemma_pos_index(f as int, r, c);
                    }
                }
                i += 1;
            }
            proof {
                assert forall|r: int, c: int| in_grid(r, c) implies part_index(f as int, r, c) < 9 by {
                    lemma_pos_index(f as int, r, c);
                }
            }
            f += 1;
        }
        pmap
    }
}

} // verus!
