//! The partition catalog: rows, columns and boxes of the grid, and for
//! every cell the three partitions that hold it.

use vstd::prelude::*;
use crate::entity::{SudokuMatrix, SQUARE_INNER_LEN, SQUARE_OUTER_LEN};

verus! {

/// A cell, as (row, column).
pub type Position = (usize, usize);

/// The nine cells of one partition, in their fixed order.
pub type PositionPartition = [Position; SQUARE_OUTER_LEN];

/// One family of partitions: the rows, the columns or the boxes.
#[derive(Copy, Clone)]
pub struct SudokuRuler {
    pub partitions: [PositionPartition; SQUARE_OUTER_LEN],
}

/// Number of partition families.
pub const RULER_COUNT: usize = 3;

/// The three families, in the order row, column, box.
pub type RulerLoop = [SudokuRuler; RULER_COUNT];

/// For every cell, the partition of each family that holds it.
pub type RulerPartitionMap = SudokuMatrix<[PositionPartition; RULER_COUNT]>;

/// Member `k` of partition `i` of family `f` (0 rows, 1 columns, 2 boxes).
/// Rows are ordered by column, columns by row, boxes row-major; boxes are
/// numbered row-major over the 3×3 block grid.
pub open spec fn part_pos(f: int, i: int, k: int) -> (int, int) {
    if f == 0 {
        (i, k)
    } else if f == 1 {
        (k, i)
    } else {
        ((i / 3) * 3 + k / 3, (i % 3) * 3 + k % 3)
    }
}

/// The partition of family `f` that holds cell (r, c).
pub open spec fn part_index(f: int, r: int, c: int) -> int {
    if f == 0 {
        r
    } else if f == 1 {
        c
    } else {
        (r / 3) * 3 + c / 3
    }
}

/// Where cell (r, c) stands inside its partition of family `f`.
pub open spec fn pos_index(f: int, r: int, c: int) -> int {
    if f == 0 {
        c
    } else if f == 1 {
        r
    } else {
        (r % 3) * 3 + c % 3
    }
}

/// Cells (r1, c1) and (r2, c2) lie in one partition of family `f`.
pub open spec fn same_part(f: int, r1: int, c1: int, r2: int, c2: int) -> bool {
    part_index(f, r1, c1) == part_index(f, r2, c2)
}

/// Cells (r1, c1) and (r2, c2) share a row, a column or a box (a cell is its
/// own peer).
pub open spec fn is_peer(r1: int, c1: int, r2: int, c2: int) -> bool {
    same_part(0, r1, c1, r2, c2) || same_part(1, r1, c1, r2, c2) || same_part(2, r1, c1, r2, c2)
}

pub open spec fn in_grid(r: int, c: int) -> bool {
    0 <= r < 9 && 0 <= c < 9
}

/// An executable position equals a mathematical one.
pub open spec fn pos_is(p: Position, q: (int, int)) -> bool {
    p.0 as int == q.0 && p.1 as int == q.1
}

/// The members of a partition are cells of the grid, and each cell of the
/// partition is the member at its own index.
pub proof fn lemma_part_pos(f: int, i: int, k: int)
    requires
        0 <= f < 3,
        0 <= i < 9,
        0 <= k < 9,
    ensures
        in_grid(part_pos(f, i, k).0, part_pos(f, i, k).1),
        part_index(f, part_pos(f, i, k).0, part_pos(f, i, k).1) == i,
        pos_index(f, part_pos(f, i, k).0, part_pos(f, i, k).1) == k,
{
}

/// Every cell is the member of its partition at its own index.
pub proof fn lemma_pos_index(f: int, r: int, c: int)
    requires
        0 <= f < 3,
        in_grid(r, c),
    ensures
        0 <= part_index(f, r, c) < 9,
        0 <= pos_index(f, r, c) < 9,
        part_pos(f, part_index(f, r, c), pos_index(f, r, c)) == (r, c),
{
}

/// The catalog: the three families and the per-cell lookup table.
pub struct RulerContainer {
    ruler_loop: RulerLoop,
    partition_map: RulerPartitionMap,
}

impl RulerContainer {
    #[verifier::type_invariant]
    spec fn inv(self) -> bool {
        &&& forall|f: int, i: int, k: int|
            0 <= f < 3 && 0 <= i < 9 && 0 <= k < 9 ==> pos_is(
                #[trigger] self.ruler_loop[f].partitions[i][k],
                part_pos(f, i, k),
            )
        &&& forall|r: int, c: int, f: int, k: int|
            in_grid(r, c) && 0 <= f < 3 && 0 <= k < 9 ==> pos_is(
                #[trigger] self.partition_map[r][c][f][k],
                part_pos(f, part_index(f, r, c), k),
            )
    }
}

/// Member `k` of partition `i` of family `f`, computed from the geometry.
fn partition_position(f: usize, i: usize, k: usize) -> (p: Position)
    requires
        f < 3,
        i < 9,
        k < 9,
    ensures
        pos_is(p, part_pos(f as int, i as int, k as int)),
{
    if f == 0 {
        (i, k)
    } else if f == 1 {
        (k, i)
    } else {
        (
            (i / SQUARE_INNER_LEN) * SQUARE_INNER_LEN + k / SQUARE_INNER_LEN,
            (i % SQUARE_INNER_LEN) * SQUARE_INNER_LEN + k % SQUARE_INNER_LEN,
        )
    }
}

/// Builds the three families: rows, columns and boxes.
pub fn gen_ruler_loop() -> (r: RulerLoop)
    ensures
        forall|f: int, i: int, k: int|
            0 <= f < 3 && 0 <= i < 9 && 0 <= k < 9 ==> pos_is(
                #[trigger] r[f].partitions[i][k],
                part_pos(f, i, k),
            ),
{
    let mut ruler_loop: RulerLoop = [SudokuRuler {
        partitions: [[(0, 0); SQUARE_OUTER_LEN]; SQUARE_OUTER_LEN],
    }; RULER_COUNT];
    let mut f: usize = 0;
    while f < RULER_COUNT
        invariant
            f <= 3,
            forall|g: int, i: int, k: int|
                0 <= g < f && 0 <= i < 9 && 0 <= k < 9 ==> pos_is(
                    #[trigger] ruler_loop[g].partitions[i][k],
                    part_pos(g, i, k),
                ),
        decreases 3 - f,
    {
        let mut i: usize = 0;
        while i < SQUARE_OUTER_LEN
            invariant
                f < 3,
                i <= 9,
                forall|g: int, j: int, k: int|
                    0 <= g < f && 0 <= j < 9 && 0 <= k < 9 ==> pos_is(
                        #[trigger] ruler_loop[g].partitions[j][k],
                        part_pos(g, j, k),
                    ),
                forall|j: int, k: int|
                    0 <= j < i && 0 <= k < 9 ==> pos_is(
                        #[trigger] ruler_loop[f as int].partitions[j][k],
                        part_pos(f as int, j, k),
                    ),
            decreases 9 - i,
        {
            let mut k: usize = 0;
            while k < SQUARE_OUTER_LEN
                invariant
                    f < 3,
                    i < 9,
                    k <= 9,
                    forall|g: int, j: int, l: int|
                        0 <= g < f && 0 <= j < 9 && 0 <= l < 9 ==> pos_is(
                            #[trigger] ruler_loop[g].partitions[j][l],
                            part_pos(g, j, l),
                        ),
                    forall|j: int, l: int|
                        0 <= j < i && 0 <= l < 9 ==> pos_is(
                            #[trigger] ruler_loop[f as int].partitions[j][l],
                            part_pos(f as int, j, l),
                        ),
                    forall|l: int|
                        0 <= l < k ==> pos_is(
                            #[trigger] ruler_loop[f as int].partitions[i as int][l],
                            part_pos(f as int, i as int, l),
                        ),
                decreases 9 - k,
            {
                ruler_loop[f].partitions[i][k] = partition_position(f, i, k);
                k += 1;
            }
            i += 1;
        }
        f += 1;
    }
    ruler_loop
}

/// The partition of family `f` that holds cell (r, c).
fn partition_index(f: usize, r: usize, c: usize) -> (i: usize)
    requires
        f < 3,
        r < 9,
        c < 9,
    ensures
        i as int == part_index(f as int, r as int, c as int),
        i < 9,
{
    if f == 0 {
        r
    } else if f == 1 {
        c
    } else {
        (r / SQUARE_INNER_LEN) * SQUARE_INNER_LEN + c / SQUARE_INNER_LEN
    }
}

/// Builds the per-cell table: for each cell, its row, column and box.
pub fn gen_ruler_partition_map(ruler_loop: &RulerLoop) -> (map: RulerPartitionMap)
    requires
        forall|f: int, i: int, k: int|
            0 <= f < 3 && 0 <= i < 9 && 0 <= k < 9 ==> pos_is(
                #[trigger] ruler_loop[f].partitions[i][k],
                part_pos(f, i, k),
            ),
    ensures
        forall|r: int, c: int, f: int, k: int|
            in_grid(r, c) && 0 <= f < 3 && 0 <= k < 9 ==> pos_is(
                #[trigger] map[r][c][f][k],
                part_pos(f, part_index(f, r, c), k),
            ),
{
    let mut map: RulerPartitionMap = [[[[(0, 0); SQUARE_OUTER_LEN]; RULER_COUNT]; SQUARE_OUTER_LEN];
        SQUARE_OUTER_LEN];
    let mut r: usize = 0;
    while r < SQUARE_OUTER_LEN
        invariant
            r <= 9,
            forall|f: int, i: int, k: int|
                0 <= f < 3 && 0 <= i < 9 && 0 <= k < 9 ==> pos_is(
                    #[trigger] ruler_loop[f].partitions[i][k],
                    part_pos(f, i, k),
                ),
            forall|a: int, c: int, f: int, k: int|
                0 <= a < r && 0 <= c < 9 && 0 <= f < 3 && 0 <= k < 9 ==> pos_is(
                    #[trigger] map[a][c][f][k],
                    part_pos(f, part_index(f, a, c), k),
                ),
        decreases 9 - r,
    {
        let mut c: usize = 0;
        while c < SQUARE_OUTER_LEN
            invariant
                r < 9,
                c <= 9,
                forall|f: int, i: int, k: int|
                    0 <= f < 3 && 0 <= i < 9 && 0 <= k < 9 ==> pos_is(
                        #[trigger] ruler_loop[f].partitions[i][k],
                        part_pos(f, i, k),
                    ),
                forall|a: int, b: int, f: int, k: int|
                    ((0 <= a < r && 0 <= b < 9) || (a == r && 0 <= b < c)) && 0 <= f < 3 && 0
                        <= k < 9 ==> pos_is(
                        #[trigger] map[a][b][f][k],
                        part_pos(f, part_index(f, a, b), k),
                    ),
            decreases 9 - c,
        {
            let mut f: usize = 0;
            while f < RULER_COUNT
                invariant
                    r < 9,
                    c < 9,
                    f <= 3,
                    forall|g: int, i: int, k: int|
                        0 <= g < 3 && 0 <= i < 9 && 0 <= k < 9 ==> pos_is(
                            #[trigger] ruler_loop[g].partitions[i][k],
                            part_pos(g, i, k),
                        ),
                    forall|a: int, b: int, g: int, k: int|
                        ((0 <= a < r && 0 <= b < 9) || (a == r && 0 <= b < c)) && 0 <= g < 3
                            && 0 <= k < 9 ==> pos_is(
                            #[trigger] map[a][b][g][k],
                            part_pos(g, part_index(g, a, b), k),
                        ),
                    forall|g: int, k: int|
                        0 <= g < f && 0 <= k < 9 ==> pos_is(
                            #[trigger] map[r as int][c as int][g][k],
                            part_pos(g, part_index(g, r as int, c as int), k),
                        ),
                decreases 3 - f,
            {
                let i = partition_index(f, r, c);
                map[r][c][f] = ruler_loop[f].partitions[i];
                f += 1;
            }
            c += 1;
        }
        r += 1;
    }
    map
}

/// Builds the catalog. Every other part of the library takes it by
/// reference.
pub fn init() -> (rulers: RulerContainer) {
    let ruler_loop = gen_ruler_loop();
    let partition_map = gen_ruler_partition_map(&ruler_loop);
    RulerContainer { ruler_loop, partition_map }
}

/// The three families of the catalog.
pub fn get_sudoku_ruler_loop(rulers: &RulerContainer) -> (r: RulerLoop)
    ensures
        forall|f: int, i: int, k: int|
            0 <= f < 3 && 0 <= i < 9 && 0 <= k < 9 ==> pos_is(
                #[trigger] r[f].partitions[i][k],
                part_pos(f, i, k),
            ),
{
    proof {
        use_type_invariant(rulers);
    }
    rulers.ruler_loop
}

/// The row, column and box (in that order) that hold `pos`.
pub fn get_sudoku_ruler_partition_map(rulers: &RulerContainer, pos: &Position) -> (r: [PositionPartition; RULER_COUNT])
    requires
        in_grid(pos.0 as int, pos.1 as int),
    ensures
        forall|f: int, k: int|
            0 <= f < 3 && 0 <= k < 9 ==> pos_is(
                #[trigger] r[f][k],
                part_pos(f, part_index(f, pos.0 as int, pos.1 as int), k),
            ),
{
    proof {
        use_type_invariant(rulers);
    }
    rulers.partition_map[pos.0][pos.1]
}

/// All 27 partitions with their family, rows first, then columns, then
/// boxes, each family in partition order: entry `9 * f + i` is partition
/// `i` of family `f`.
pub fn each_sudoku_partition(rulers: &RulerContainer) -> (r: Vec<(usize, PositionPartition)>)
    ensures
        r@.len() == 27,
        forall|t: int| 0 <= t < 27 ==> (#[trigger] r@[t]).0 == t / 9,
        forall|t: int, k: int|
            0 <= t < 27 && 0 <= k < 9 ==> pos_is(#[trigger] r@[t].1[k], part_pos(t / 9, t % 9, k)),
{
    let ruler_loop = get_sudoku_ruler_loop(rulers);
    let mut all: Vec<(usize, PositionPartition)> = Vec::new();
    let mut f: usize = 0;
    while f < RULER_COUNT
        invariant
            f <= 3,
            all@.len() == 9 * f,
            forall|g: int, i: int, k: int|
                0 <= g < 3 && 0 <= i < 9 && 0 <= k < 9 ==> pos_is(
                    #[trigger] ruler_loop[g].partitions[i][k],
                    part_pos(g, i, k),
                ),
            forall|t: int| 0 <= t < 9 * f ==> (#[trigger] all@[t]).0 == t / 9,
            forall|t: int, k: int|
                0 <= t < 9 * f && 0 <= k < 9 ==> pos_is(
                    #[trigger] all@[t].1[k],
                    part_pos(t / 9, t % 9, k),
                ),
        decreases 3 - f,
    {
        let mut i: usize = 0;
        while i < SQUARE_OUTER_LEN
            invariant
                f < 3,
                i <= 9,
                all@.len() == 9 * f + i,
                i < 9 ==> (9 * f + i) / 9 == f,
                i < 9 ==> (9 * f + i) % 9 == i,
                forall|g: int, j: int, k: int|
                    0 <= g < 3 && 0 <= j < 9 && 0 <= k < 9 ==> pos_is(
                        #[trigger] ruler_loop[g].partitions[j][k],
                        part_pos(g, j, k),
                    ),
                forall|t: int| 0 <= t < 9 * f + i ==> (#[trigger] all@[t]).0 == t / 9,
                forall|t: int, k: int|
                    0 <= t < 9 * f + i && 0 <= k < 9 ==> pos_is(
                        #[trigger] all@[t].1[k],
                        part_pos(t / 9, t % 9, k),
                    ),
            decreases 9 - i,
        {
            all.push((f, ruler_loop[f].partitions[i]));
            i += 1;
        }
        f += 1;
    }
    all
}

} // verus!
