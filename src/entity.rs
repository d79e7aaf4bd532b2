//! The value grid and its cell values.

use vstd::prelude::*;

verus! {

/// Side of the whole grid.
pub const SQUARE_OUTER_LEN: usize = 9;

/// Side of one box.
pub const SQUARE_INNER_LEN: usize = 3;

/// Number of boxes along one side of the grid.
pub const SQUARE_INNER_NUM: usize = 3;

/// A 9×9 matrix, indexed by row and then column.
pub type SudokuMatrix<T> = [[T; SQUARE_OUTER_LEN]; SQUARE_OUTER_LEN];

/// A cell value: 1 to 9, or unknown.
pub type SudokuValueType = usize;

/// The cell value that stands for "not known yet".
pub const SUDOKU_UNKNOWN: SudokuValueType = 0;

/// A value that a solved cell may hold.
pub open spec fn spec_is_sudoku_value(value: int) -> bool {
    1 <= value <= 9
}

/// A 9×9 matrix whose every cell holds `init_value`.
pub fn new_sudoku_matrix<T: Copy>(init_value: T) -> (r: SudokuMatrix<T>)
    ensures
        forall|i: int, j: int| 0 <= i < 9 && 0 <= j < 9 ==> #[trigger] r[i][j] == init_value,
{
    [[init_value; SQUARE_OUTER_LEN]; SQUARE_OUTER_LEN]
}

/// Whether `value` is one of 1 to 9.
pub fn is_sudoku_value(value: SudokuValueType) -> (r: bool)
    ensures
        r == spec_is_sudoku_value(value as int),
{
    1 <= value && value <= 9
}

/// A grid of cell values, indexed by row and then column.
#[derive(Clone, Copy, Debug, PartialEq)]
pub struct SudokuMatrixValue {
    pub matrix: SudokuMatrix<SudokuValueType>,
}

impl SudokuMatrixValue {
    /// The value at row `r`, column `c`.
    pub open spec fn at(&self, r: int, c: int) -> int {
        self.matrix[r][c] as int
    }

    /// The cell at row `r`, column `c` holds no sudoku value.
    pub open spec fn is_empty_at(&self, r: int, c: int) -> bool {
        !spec_is_sudoku_value(self.at(r, c))
    }

    pub fn new() -> (r: SudokuMatrixValue)
        ensures
            forall|i: int, j: int| 0 <= i < 9 && 0 <= j < 9 ==> #[trigger] r.at(i, j) == 0,
    {
        SudokuMatrixValue { matrix: new_sudoku_matrix(SUDOKU_UNKNOWN) }
    }

    /// The first empty cell in row-major order, if any.
    pub fn next_empty_value(&self) -> (r: Option<(usize, usize)>)
        ensures
            r is None ==> forall|i: int, j: int|
                0 <= i < 9 && 0 <= j < 9 ==> !#[trigger] self.is_empty_at(i, j),
            r matches Some((row, col)) ==> {
                &&& row < 9 && col < 9
                &&& self.is_empty_at(row as int, col as int)
                &&& forall|i: int, j: int|
                    0 <= i < 9 && 0 <= j < 9 && (i < row || (i == row && j < col))
                        ==> !#[trigger] self.is_empty_at(i, j)
            },
    {
        let mut i: usize = 0;
        while i < SQUARE_OUTER_LEN
            invariant
                i <= 9,
                forall|a: int, b: int| 0 <= a < i && 0 <= b < 9 ==> !#[trigger] self.is_empty_at(a, b),
            decreases 9 - i,
        {
            let mut j: usize = 0;
            while j < SQUARE_OUTER_LEN
                invariant
                    i < 9,
                    j <= 9,
                    forall|a: int, b: int| 0 <= a < i && 0 <= b < 9 ==> !#[trigger] self.is_empty_at(a, b),
                    forall|b: int| 0 <= b < j ==> !#[trigger] self.is_empty_at(i as int, b),
                decreases 9 - j,
            {
                if !is_sudoku_value(self.matrix[i][j]) {
                    return Some((i, j));
                }
                j += 1;
            }
            i += 1;
        }
        None
    }
}

/// Two grids with the same value in every cell are the same grid.
pub proof fn lemma_grid_ext(g1: SudokuMatrixValue, g2: SudokuMatrixValue)
    requires
        forall|r: int, c: int| 0 <= r < 9 && 0 <= c < 9 ==> #[trigger] g1.at(r, c) == g2.at(r, c),
    ensures
        g1 == g2,
{
    assert forall|r: int| 0 <= r < 9 implies #[trigger] g1.matrix[r] == g2.matrix[r] by {
        assert forall|c: int| 0 <= c < 9 implies g1.matrix[r][c] == g2.matrix[r][c] by {
            assert(g1.at(r, c) == g2.at(r, c));
        }
        assert(g1.matrix[r] =~= g2.matrix[r]);
    }
    assert(g1.matrix =~= g2.matrix);
}

} // verus!
