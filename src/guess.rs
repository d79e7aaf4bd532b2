//! The backtracking enumerator: every completion of a grid that the
//! candidate sets and the rules allow.

use vstd::prelude::*;
use crate::algorithm::{grid_matches, lemma_swept, swept, CandView, CandidateMatrix};
use crate::entity::{
    is_sudoku_value, lemma_grid_ext, spec_is_sudoku_value, SudokuMatrixValue, SudokuValueType,
    SQUARE_OUTER_LEN, SUDOKU_UNKNOWN,
};
use crate::solution::rule_valid;
use crate::rulers::{
    get_sudoku_ruler_partition_map, in_grid, init, is_peer, part_index, part_pos, pos_is, Position,
    RulerContainer, RULER_COUNT,
};

verus! {

/// No peer of (r, c), (r, c) itself included, holds `num` in `g`.
pub open spec fn fits(g: SudokuMatrixValue, r: int, c: int, num: int) -> bool {
    forall|r2: int, c2: int| in_grid(r2, c2) && #[trigger] is_peer(r, c, r2, c2) ==> g.at(r2, c2) != num
}

/// `g` completes `start` within the candidate sets `cand`: it keeps every
/// known cell of `start`, and each cell that `start` leaves empty holds a
/// sudoku value that its candidate set admits and that no peer holds.
pub open spec fn completes(g: SudokuMatrixValue, start: SudokuMatrixValue, cand: CandView) -> bool {
    forall|r: int, c: int|
        #![trigger g.at(r, c)]
        in_grid(r, c) ==> if start.is_empty_at(r, c) {
            &&& spec_is_sudoku_value(g.at(r, c))
            &&& cand[r][c][g.at(r, c) - 1]
            &&& forall|r2: int, c2: int|
                in_grid(r2, c2) && #[trigger] is_peer(r, c, r2, c2) && (r2, c2) != (r, c) ==> g.at(r2, c2)
                    != g.at(r, c)
        } else {
            g.at(r, c) == start.at(r, c)
        }
}

/// Two grids have the same known cells with the same values.
pub open spec fn same_knowns(g1: SudokuMatrixValue, g2: SudokuMatrixValue) -> bool {
    forall|r: int, c: int|
        #![trigger g1.at(r, c)]
        #![trigger g2.at(r, c)]
        in_grid(r, c) ==> g1.is_empty_at(r, c) == g2.is_empty_at(r, c) && (!g1.is_empty_at(r, c) ==> g1.at(r, c)
            == g2.at(r, c))
}

/// The number of empty cells among the first `n` in row-major order.
pub open spec fn count_empty(g: SudokuMatrixValue, n: int) -> nat
    decreases n,
{
    if n <= 0 {
        0
    } else {
        count_empty(g, n - 1) + if g.is_empty_at((n - 1) / 9, (n - 1) % 9) {
            1nat
        } else {
            0nat
        }
    }
}

/// Filling one empty cell (flat index `p` below `n`) of `g1`, and nothing
/// else, takes one off the count of empty cells.
proof fn lemma_count_empty_fill(g1: SudokuMatrixValue, g2: SudokuMatrixValue, pr: int, pc: int, n: int)
    requires
        in_grid(pr, pc),
        0 <= n <= 81,
        g1.is_empty_at(pr, pc),
        !g2.is_empty_at(pr, pc),
        forall|r: int, c: int|
            in_grid(r, c) && (r, c) != (pr, pc) ==> #[trigger] g1.is_empty_at(r, c) == g2.is_empty_at(r, c),
    ensures
        count_empty(g1, n) == count_empty(g2, n) + if 9 * pr + pc < n {
            1int
        } else {
            0int
        },
    decreases n,
{
    if n > 0 {
        lemma_count_empty_fill(g1, g2, pr, pc, n - 1);
        let r = (n - 1) / 9;
        let c = (n - 1) % 9;
        if (r, c) == (pr, pc) {
        } else {
            assert(g1.is_empty_at(r, c) == g2.is_empty_at(r, c));
        }
    }
}

/// Whether `num` is a sudoku value that no peer of `pos`, `pos` itself
/// included, holds in `matrix`.
fn is_valid(rulers: &RulerContainer, matrix: &SudokuMatrixValue, pos: &Position, num: SudokuValueType) -> (r: bool)
    requires
        in_grid(pos.0 as int, pos.1 as int),
    ensures
        r == (spec_is_sudoku_value(num as int) && fits(*matrix, pos.0 as int, pos.1 as int, num as int)),
{
    if !is_sudoku_value(num) {
        return false;
    }
    let ghost pr = pos.0 as int;
    let ghost pc = pos.1 as int;
    let partition_list = get_sudoku_ruler_partition_map(rulers, pos);
    let mut valided = true;
    let mut f: usize = 0;
    proof {
        lemma_swept(pr, pc, 0, 0);
    }
    while f < RULER_COUNT
        invariant
            f <= 3,
            in_grid(pr, pc),
            pr == pos.0 as int && pc == pos.1 as int,
            forall|g: int, k: int|
                0 <= g < 3 && 0 <= k < 9 ==> pos_is(#[trigger] partition_list[g][k], part_pos(g, part_index(g, pr, pc), k)),
            valided == forall|r2: int, c2: int|
                in_grid(r2, c2) && #[trigger] swept(pr, pc, r2, c2, f as int, 0) ==> matrix.at(r2, c2) != num,
        decreases 3 - f,
    {
        let mut k: usize = 0;
        while k < SQUARE_OUTER_LEN
            invariant
                f < 3,
                k <= 9,
                in_grid(pr, pc),
                pr == pos.0 as int && pc == pos.1 as int,
                forall|g: int, k: int|
                    0 <= g < 3 && 0 <= k < 9 ==> pos_is(#[trigger] partition_list[g][k], part_pos(g, part_index(g, pr, pc), k)),
                valided == forall|r2: int, c2: int|
                    in_grid(r2, c2) && #[trigger] swept(pr, pc, r2, c2, f as int, k as int) ==> matrix.at(r2, c2) != num,
            decreases 9 - k,
        {
            let (row, col) = partition_list[f][k];
            proof {
                lemma_swept(pr, pc, f as int, k as int);
                assert(pos_is((row, col), part_pos(f as int, part_index(f as int, pr, pc), k as int)));
            }
            let ghost prev = valided;
            valided = valided && num != matrix.matrix[row][col];
            proof {
                assert(valided == forall|r2: int, c2: int|
                    in_grid(r2, c2) && #[trigger] swept(pr, pc, r2, c2, f as int, k + 1) ==> matrix.at(r2, c2) != num) by {
                    if prev && !valided {
                        assert(swept(pr, pc, row as int, col as int, f as int, k + 1));
                    }
                    if !prev {
                        let (r2, c2) = choose|r2: int, c2: int|
                            in_grid(r2, c2) && #[trigger] swept(pr, pc, r2, c2, f as int, k as int) && matrix.at(r2, c2) == num;
                        assert(swept(pr, pc, r2, c2, f as int, k + 1));
                    }
                }
            }
            k += 1;
        }
        proof {
            lemma_swept(pr, pc, f as int, 0);
            assert(valided == forall|r2: int, c2: int|
                in_grid(r2, c2) && #[trigger] swept(pr, pc, r2, c2, f + 1, 0) ==> matrix.at(r2, c2) != num) by {
                if !valided {
                    let (r2, c2) = choose|r2: int, c2: int|
                        in_grid(r2, c2) && #[trigger] swept(pr, pc, r2, c2, f as int, 9) && matrix.at(r2, c2) == num;
                    assert(swept(pr, pc, r2, c2, f + 1, 0));
                } else {
                    assert forall|r2: int, c2: int| in_grid(r2, c2) && #[trigger] swept(pr, pc, r2, c2, f + 1, 0) implies matrix.at(r2, c2) != num by {
                        assert(swept(pr, pc, r2, c2, f as int, 9));
                    }
                }
            }
        }
        f += 1;
    }
    proof {
        lemma_swept(pr, pc, 0, 0);
        assert forall|r2: int, c2: int| in_grid(r2, c2) implies #[trigger] is_peer(pr, pc, r2, c2) == swept(pr, pc, r2, c2, 3, 0) by {}
    }
    valided
}

/// The value of `g` at row-major index `n`.
pub open spec fn flat_at(g: SudokuMatrixValue, n: int) -> int {
    g.at(n / 9, n % 9)
}

/// `g1` comes before `g2` when the cells are read in row-major order: at
/// the first cell where they differ, `g1` holds the smaller value.
pub open spec fn grid_lt(g1: SudokuMatrixValue, g2: SudokuMatrixValue) -> bool {
    exists|n: int|
        0 <= n < 81 && flat_at(g1, n) < flat_at(g2, n) && forall|m: int|
            0 <= m < n ==> #[trigger] flat_at(g1, m) == flat_at(g2, m)
}

/// `found` lists every completion of `start` within `cand`, each once, in
/// ascending row-major order, and nothing else.
pub open spec fn enumerates(found: Seq<SudokuMatrixValue>, start: SudokuMatrixValue, cand: CandView) -> bool {
    &&& forall|j: int| 0 <= j < found.len() ==> completes(#[trigger] found[j], start, cand)
    &&& forall|g: SudokuMatrixValue| completes(g, start, cand) ==> #[trigger] found.contains(g)
    &&& found.no_duplicates()
    &&& forall|i: int, j: int| 0 <= i < j < found.len() ==> grid_lt(#[trigger] found[i], #[trigger] found[j])
}

/// Setting the empty cell (pr, pc) of `base` to `n`, where `n` is a
/// candidate there and no known peer holds it, leaves as completions
/// exactly the completions of `base` that hold `n` there.
proof fn lemma_branch(
    g: SudokuMatrixValue,
    base: SudokuMatrixValue,
    cur: SudokuMatrixValue,
    cand: CandView,
    pr: int,
    pc: int,
    n: int,
)
    requires
        in_grid(pr, pc),
        base.is_empty_at(pr, pc),
        1 <= n <= 9,
        cand[pr][pc][n - 1],
        cur.at(pr, pc) == n,
        forall|r: int, c: int|
            #![trigger cur.at(r, c)]
            in_grid(r, c) && (r, c) != (pr, pc) ==> cur.is_empty_at(r, c) == base.is_empty_at(r, c) && (
            !base.is_empty_at(r, c) ==> cur.at(r, c) == base.at(r, c)),
        forall|r: int, c: int|
            in_grid(r, c) && #[trigger] is_peer(pr, pc, r, c) && (r, c) != (pr, pc) && !base.is_empty_at(r, c)
                ==> base.at(r, c) != n,
    ensures
        completes(g, cur, cand) == (completes(g, base, cand) && g.at(pr, pc) == n),
{
    if completes(g, cur, cand) {
        assert(g.at(pr, pc) == n);
        assert forall|r: int, c: int| in_grid(r, c) implies #[trigger] g.at(r, c) == g.at(r, c) && (if base.is_empty_at(r, c) {
            &&& spec_is_sudoku_value(g.at(r, c))
            &&& cand[r][c][g.at(r, c) - 1]
            &&& forall|r2: int, c2: int|
                in_grid(r2, c2) && #[trigger] is_peer(r, c, r2, c2) && (r2, c2) != (r, c) ==> g.at(r2, c2)
                    != g.at(r, c)
        } else {
            g.at(r, c) == base.at(r, c)
        }) by {
            if (r, c) == (pr, pc) {
                assert forall|r2: int, c2: int|
                    in_grid(r2, c2) && #[trigger] is_peer(r, c, r2, c2) && (r2, c2) != (r, c) implies g.at(r2, c2)
                        != g.at(r, c) by {
                    assert(cur.at(r2, c2) == cur.at(r2, c2));
                    if base.is_empty_at(r2, c2) {
                        assert(g.at(r2, c2) == g.at(r2, c2));
                        assert(is_peer(r2, c2, r, c));
                    }
                }
            } else {
                assert(cur.at(r, c) == cur.at(r, c));
            }
        }
    }
    if completes(g, base, cand) && g.at(pr, pc) == n {
        assert forall|r: int, c: int| in_grid(r, c) implies #[trigger] g.at(r, c) == g.at(r, c) && (if cur.is_empty_at(r, c) {
            &&& spec_is_sudoku_value(g.at(r, c))
            &&& cand[r][c][g.at(r, c) - 1]
            &&& forall|r2: int, c2: int|
                in_grid(r2, c2) && #[trigger] is_peer(r, c, r2, c2) && (r2, c2) != (r, c) ==> g.at(r2, c2)
                    != g.at(r, c)
        } else {
            g.at(r, c) == cur.at(r, c)
        }) by {
            if (r, c) != (pr, pc) {
                assert(cur.at(r, c) == cur.at(r, c));
            }
        }
    }
}

/// A completion of `base` that holds `n` at the empty cell (pr, pc) makes
/// `n` a candidate there, and `n` fits `cur`, which differs from `base` at
/// most at (pr, pc), where it is empty or below `n`.
proof fn lemma_completion_fits(
    g: SudokuMatrixValue,
    base: SudokuMatrixValue,
    cur: SudokuMatrixValue,
    cand: CandView,
    pr: int,
    pc: int,
    n: int,
)
    requires
        in_grid(pr, pc),
        base.is_empty_at(pr, pc),
        completes(g, base, cand),
        g.at(pr, pc) == n,
        cur.is_empty_at(pr, pc) || cur.at(pr, pc) < n,
        forall|r: int, c: int|
            #![trigger cur.at(r, c)]
            in_grid(r, c) && (r, c) != (pr, pc) ==> cur.is_empty_at(r, c) == base.is_empty_at(r, c) && (
            !base.is_empty_at(r, c) ==> cur.at(r, c) == base.at(r, c)),
    ensures
        1 <= n <= 9,
        cand[pr][pc][n - 1],
        fits(cur, pr, pc, n),
{
    assert(g.at(pr, pc) == n);
    assert forall|r2: int, c2: int| in_grid(r2, c2) && #[trigger] is_peer(pr, pc, r2, c2) implies cur.at(r2, c2) != n by {
        if (r2, c2) != (pr, pc) {
            assert(cur.at(r2, c2) == cur.at(r2, c2));
            assert(g.at(r2, c2) == g.at(r2, c2));
        }
    }
}

/// Enumerates the completions of a partly filled grid within candidate
/// sets, by depth-first search.
pub struct SudokuSolver {
    rulers: RulerContainer,
    candi: CandidateMatrix,
    current: SudokuMatrixValue,
    all_possible: Vec<SudokuMatrixValue>,
}

impl SudokuSolver {
    /// The candidate sets that the search keeps to.
    pub closed spec fn cands(&self) -> CandView {
        self.candi@
    }

    /// The grid that the search fills.
    pub closed spec fn grid(&self) -> SudokuMatrixValue {
        self.current
    }

    /// The completed grids found so far.
    pub closed spec fn results(&self) -> Seq<SudokuMatrixValue> {
        self.all_possible@
    }
}

impl From<CandidateMatrix> for SudokuSolver {
    /// A search over `value`, starting from the grid of its determined
    /// cells, with nothing found yet.
    fn from(value: CandidateMatrix) -> (r: SudokuSolver)
        ensures
            r.cands() == value@,
            grid_matches(value@, r.grid()),
            r.results() == Seq::<SudokuMatrixValue>::empty(),
    {
        let origin = SudokuMatrixValue::from(value);
        SudokuSolver { rulers: init(), candi: value, current: origin, all_possible: Vec::new() }
    }
}

impl vstd::std_specs::convert::FromSpecImpl<CandidateMatrix> for SudokuSolver {
    open spec fn obeys_from_spec() -> bool {
        false
    }

    open spec fn from_spec(value: CandidateMatrix) -> SudokuSolver {
        choose|r: SudokuSolver| r.cands() == value@
    }
}

impl SudokuSolver {
    /// Appends every completion of the current grid within the candidate
    /// sets, each once, in ascending row-major order: the empty cells are
    /// filled in row-major order, each with the values its candidate set
    /// admits, ascending, that no peer holds at that moment. The known
    /// cells stay as they are; empty cells stay empty.
    pub fn solver_possible(&mut self)
        ensures
            final(self).cands() == old(self).cands(),
            same_knowns(final(self).grid(), old(self).grid()),
            old(self).results().len() <= final(self).results().len(),
            final(self).results().take(old(self).results().len() as int) == old(self).results(),
            enumerates(
                final(self).results().skip(old(self).results().len() as int),
                old(self).grid(),
                old(self).cands(),
            ),
        decreases count_empty(old(self).grid(), 81),
    {
        let ghost base = self.current;
        let ghost cand = self.candi@;
        let ghost start = self.all_possible@;
        if let Some((row, col)) = self.current.next_empty_value() {
            let ghost pr = row as int;
            let ghost pc = col as int;
            let cans = self.candi.can_matrix[row][col].can;
            proof {
                assert forall|b: int| 0 <= b < 9 implies cans[b] == cand[pr][pc][b] by {}
            }
            let ghost mut acc: Seq<SudokuMatrixValue> = Seq::empty();
            let mut num: usize = 0;
            while num < SQUARE_OUTER_LEN
                invariant
                    num <= 9,
                    in_grid(pr, pc),
                    pr == row && pc == col,
                    base.is_empty_at(pr, pc),
                    cand == self.candi@,
                    cand == old(self).candi@,
                    base == old(self).current,
                    start == old(self).all_possible@,
                    forall|b: int| 0 <= b < 9 ==> cans[b] == cand[pr][pc][b],
                    self.current.is_empty_at(pr, pc) || 1 <= self.current.at(pr, pc) <= num,
                    forall|r: int, c: int|
                        #![trigger self.current.at(r, c)]
                        in_grid(r, c) && (r, c) != (pr, pc) ==> self.current.is_empty_at(r, c) == base.is_empty_at(r, c)
                            && (!base.is_empty_at(r, c) ==> self.current.at(r, c) == base.at(r, c)),
                    self.all_possible@ == start + acc,
                    forall|j: int| 0 <= j < acc.len() ==> completes(#[trigger] acc[j], base, cand),
                    forall|j: int| 0 <= j < acc.len() ==> (#[trigger] acc[j]).at(pr, pc) <= num,
                    forall|g: SudokuMatrixValue| completes(g, base, cand) && g.at(pr, pc) <= num ==> #[trigger] acc.contains(g),
                    acc.no_duplicates(),
                    forall|i: int, j: int| 0 <= i < j < acc.len() ==> grid_lt(#[trigger] acc[i], #[trigger] acc[j]),
                    forall|r: int, c: int| in_grid(r, c) && (r < pr || (r == pr && c < pc)) ==> !#[trigger] base.is_empty_at(r, c),
                decreases 9 - num,
            {
                if cans[num] && is_valid(&self.rulers, &self.current, &(row, col), num + 1) {
                    let ghost pre = self.current;
                    self.current.matrix[row][col] = num + 1;
                    let ghost cur = self.current;
                    let ghost before = self.all_possible@;
                    proof {
                        assert forall|r: int, c: int| in_grid(r, c) && (r, c) != (pr, pc) implies #[trigger] cur.at(r, c) == pre.at(r, c) by {
                            assert(pre.at(r, c) == pre.at(r, c));
                            assert(cur.matrix[r][c] == pre.matrix[r][c]);
                        }
                        assert forall|r: int, c: int| in_grid(r, c) && (r, c) != (pr, pc) implies #[trigger] cur.is_empty_at(r, c) == base.is_empty_at(r, c) by {
                            assert(cur.at(r, c) == pre.at(r, c));
                        }
                        assert forall|r: int, c: int|
                            in_grid(r, c) && #[trigger] is_peer(pr, pc, r, c) && (r, c) != (pr, pc) && !base.is_empty_at(r, c)
                                implies base.at(r, c) != num + 1 by {
                            assert(self.current.at(r, c) == self.current.at(r, c));
                        }
                        lemma_count_empty_fill(base, cur, pr, pc, 81);
                    }
                    self.solver_possible();
                    let ghost found = self.all_possible@.skip(before.len() as int);
                    proof {
                        assert forall|g: SudokuMatrixValue| #[trigger] completes(g, cur, cand) == (completes(g, base, cand) && g.at(pr, pc) == num + 1) by {
                            lemma_branch(g, base, cur, cand, pr, pc, num + 1);
                        }
                        assert(self.all_possible@ =~= before + found);
                        assert forall|j: int| 0 <= j < found.len() implies (#[trigger] found[j]).at(pr, pc) == num + 1 by {
                            assert(completes(found[j], cur, cand));
                        }
                        let acc2 = acc + found;
                        assert forall|i: int, j: int| 0 <= i < j < acc2.len() implies acc2[i] != acc2[j] by {
                            if j >= acc.len() && i < acc.len() {
                                assert(acc2[i].at(pr, pc) <= num);
                                assert(acc2[j] == found[j - acc.len()]);
                            } else if i >= acc.len() {
                                assert(acc2[i] == found[i - acc.len()]);
                                assert(acc2[j] == found[j - acc.len()]);
                            }
                        }
                        assert forall|i: int, j: int| 0 <= i < j < acc2.len() implies grid_lt(#[trigger] acc2[i], #[trigger] acc2[j]) by {
                            if j >= acc.len() && i < acc.len() {
                                let n = 9 * pr + pc;
                                let gi = acc2[i];
                                let gj = acc2[j];
                                assert(gj == found[j - acc.len()]);
                                assert(completes(gi, base, cand));
                                assert(completes(gj, base, cand));
                                assert(n / 9 == pr && n % 9 == pc);
                                assert(flat_at(gi, n) <= num);
                                assert(flat_at(gj, n) == num + 1);
                                assert forall|m: int| 0 <= m < n implies #[trigger] flat_at(gi, m) == flat_at(gj, m) by {
                                    let r = m / 9;
                                    let c = m % 9;
                                    assert(!base.is_empty_at(r, c));
                                    assert(gi.at(r, c) == base.at(r, c));
                                    assert(gj.at(r, c) == base.at(r, c));
                                }
                            } else if i >= acc.len() {
                                assert(acc2[i] == found[i - acc.len()]);
                                assert(acc2[j] == found[j - acc.len()]);
                            }
                        }
                        assert forall|g: SudokuMatrixValue| completes(g, base, cand) && g.at(pr, pc) <= num + 1 implies #[trigger] acc2.contains(g) by {
                            if g.at(pr, pc) == num + 1 {
                                assert(completes(g, cur, cand));
                                assert(found.contains(g));
                                let j = choose|j: int| 0 <= j < found.len() && found[j] == g;
                                assert(acc2[acc.len() + j] == g);
                            } else {
                                assert(acc.contains(g));
                                let j = choose|j: int| 0 <= j < acc.len() && acc[j] == g;
                                assert(acc2[j] == g);
                            }
                        }
                        assert forall|j: int| 0 <= j < acc2.len() implies completes(#[trigger] acc2[j], base, cand) by {
                            if j >= acc.len() {
                                assert(acc2[j] == found[j - acc.len()]);
                                assert(completes(found[j - acc.len()], cur, cand));
                            }
                        }
                        assert forall|j: int| 0 <= j < acc2.len() implies (#[trigger] acc2[j]).at(pr, pc) <= num + 1 by {
                            if j >= acc.len() {
                                assert(acc2[j] == found[j - acc.len()]);
                            }
                        }
                        assert(self.all_possible@ =~= start + acc2);
                        acc = acc2;
                        assert(self.current.at(pr, pc) == num + 1) by {
                            assert(cur.at(pr, pc) == cur.at(pr, pc));
                        }
                        assert forall|r: int, c: int| in_grid(r, c) && (r, c) != (pr, pc) implies
                            #[trigger] self.current.at(r, c) == self.current.at(r, c) && self.current.is_empty_at(r, c) == base.is_empty_at(r, c)
                                && (!base.is_empty_at(r, c) ==> self.current.at(r, c) == base.at(r, c)) by {
                            assert(cur.at(r, c) == cur.at(r, c));
                        }
                    }
                } else {
                    proof {
                        assert forall|g: SudokuMatrixValue| completes(g, base, cand) && g.at(pr, pc) <= num + 1 implies #[trigger] acc.contains(g) by {
                            if g.at(pr, pc) == num + 1 {
                                lemma_completion_fits(g, base, self.current, cand, pr, pc, num + 1);
                            }
                        }
                    }
                }
                num += 1;
            }
            let ghost pre = self.current;
            self.current.matrix[row][col] = SUDOKU_UNKNOWN;
            proof {
                assert forall|r: int, c: int| in_grid(r, c) && (r, c) != (pr, pc) implies #[trigger] self.current.at(r, c) == pre.at(r, c) by {
                    assert(pre.at(r, c) == pre.at(r, c));
                    assert(self.current.matrix[r][c] == pre.matrix[r][c]);
                }
                assert forall|g: SudokuMatrixValue| completes(g, base, cand) implies #[trigger] acc.contains(g) by {
                    assert(g.at(pr, pc) == g.at(pr, pc));
                }
                assert(self.all_possible@.skip(start.len() as int) =~= acc);
                assert(self.all_possible@.take(start.len() as int) =~= start);
                assert forall|r: int, c: int| in_grid(r, c) implies #[trigger] self.current.at(r, c) == self.current.at(r, c)
                    && self.current.is_empty_at(r, c) == base.is_empty_at(r, c) && (!self.current.is_empty_at(r, c)
                    ==> self.current.at(r, c) == base.at(r, c)) by {
                    if (r, c) != (pr, pc) {
                        assert(pre.at(r, c) == pre.at(r, c));
                    }
                }
            }
        } else {
            self.all_possible.push(self.current);
            proof {
                let found = self.all_possible@.skip(start.len() as int);
                assert(found =~= seq![base]);
                assert(completes(base, base, cand));
                assert forall|g: SudokuMatrixValue| completes(g, base, cand) implies #[trigger] found.contains(g) by {
                    assert forall|r: int, c: int| in_grid(r, c) implies #[trigger] g.at(r, c) == base.at(r, c) by {
                        assert(!base.is_empty_at(r, c));
                    }
                    lemma_grid_ext(g, base);
                    assert(found[0] == g);
                }
                assert(self.all_possible@.take(start.len() as int) =~= start);
            }
        }
    }

    /// The completed grids found so far.
    pub fn get_all_possible_sudoku(&self) -> (r: &Vec<SudokuMatrixValue>)
        ensures
            r@ == self.results(),
    {
        &self.all_possible
    }
}

/// No two known peers of `g` hold the same value.
pub open spec fn knowns_consistent(g: SudokuMatrixValue) -> bool {
    forall|r: int, c: int, r2: int, c2: int|
        in_grid(r, c) && in_grid(r2, c2) && #[trigger] is_peer(r, c, r2, c2) && (r, c) != (r2, c2)
            && !g.is_empty_at(r, c) && !g.is_empty_at(r2, c2) ==> g.at(r, c) != g.at(r2, c2)
}

/// The values that the empty cell (pr, pc) can take: candidates there that
/// no other peer holds.
pub open spec fn fitting_values(start: SudokuMatrixValue, cand: CandView, pr: int, pc: int) -> Set<int> {
    Set::new(
        |n: int|
            1 <= n <= 9 && cand[pr][pc][n - 1] && forall|r: int, c: int|
                in_grid(r, c) && #[trigger] is_peer(pr, pc, r, c) && (r, c) != (pr, pc) ==> start.at(r, c) != n,
    )
}

/// Every grid that the enumeration finds obeys the rules, as long as the
/// known cells of the start grid do not break them already.
pub proof fn lemma_enumeration_sound(found: Seq<SudokuMatrixValue>, start: SudokuMatrixValue, cand: CandView)
    requires
        enumerates(found, start, cand),
        knowns_consistent(start),
    ensures
        forall|j: int| 0 <= j < found.len() ==> rule_valid(#[trigger] found[j]),
{
    assert forall|j: int| 0 <= j < found.len() implies rule_valid(#[trigger] found[j]) by {
        let g = found[j];
        assert(completes(g, start, cand));
        assert forall|r: int, c: int| in_grid(r, c) implies spec_is_sudoku_value(#[trigger] g.at(r, c)) by {}
        assert forall|r: int, c: int, r2: int, c2: int|
            in_grid(r, c) && in_grid(r2, c2) && #[trigger] is_peer(r, c, r2, c2) && (r, c) != (r2, c2) implies g.at(r, c)
                != g.at(r2, c2) by {
            assert(g.at(r2, c2) == g.at(r2, c2));
            if start.is_empty_at(r2, c2) {
                assert(is_peer(r2, c2, r, c));
            }
        }
    }
}

/// With one empty cell (pr, pc) left, the enumeration finds exactly one
/// grid per value that fits there, each differing from the start grid at
/// that cell only.
pub proof fn lemma_single_gap(found: Seq<SudokuMatrixValue>, start: SudokuMatrixValue, cand: CandView, pr: int, pc: int)
    requires
        enumerates(found, start, cand),
        in_grid(pr, pc),
        start.is_empty_at(pr, pc),
        forall|r: int, c: int| in_grid(r, c) && (r, c) != (pr, pc) ==> !#[trigger] start.is_empty_at(r, c),
    ensures
        found.len() == fitting_values(start, cand, pr, pc).len(),
        forall|j: int| 0 <= j < found.len() ==> fitting_values(start, cand, pr, pc).contains(#[trigger] found[j].at(pr, pc)),
        forall|j: int, r: int, c: int|
            0 <= j < found.len() && in_grid(r, c) && (r, c) != (pr, pc) ==> #[trigger] found[j].at(r, c) == start.at(r, c),
{
    let fit = fitting_values(start, cand, pr, pc);
    assert forall|j: int, r: int, c: int|
        0 <= j < found.len() && in_grid(r, c) && (r, c) != (pr, pc) implies #[trigger] found[j].at(r, c) == start.at(r, c) by {
        assert(completes(found[j], start, cand));
        assert(!start.is_empty_at(r, c));
    }
    assert forall|j: int| 0 <= j < found.len() implies fit.contains(#[trigger] found[j].at(pr, pc)) by {
        let g = found[j];
        assert(completes(g, start, cand));
        assert(g.at(pr, pc) == g.at(pr, pc));
        assert forall|r: int, c: int| in_grid(r, c) && #[trigger] is_peer(pr, pc, r, c) && (r, c) != (pr, pc) implies start.at(r, c)
            != g.at(pr, pc) by {
            assert(found[j].at(r, c) == start.at(r, c));
        }
    }
    let m = found.map_values(|g: SudokuMatrixValue| g.at(pr, pc));
    assert forall|i: int, j: int| 0 <= i < j < m.len() implies m[i] != m[j] by {
        if m[i] == m[j] {
            assert forall|r: int, c: int| in_grid(r, c) implies #[trigger] found[i].at(r, c) == found[j].at(r, c) by {
                if (r, c) != (pr, pc) {
                    assert(found[i].at(r, c) == start.at(r, c));
                    assert(found[j].at(r, c) == start.at(r, c));
                }
            }
            lemma_grid_ext(found[i], found[j]);
        }
    }
    assert forall|n: int| fit.contains(n) implies #[trigger] m.to_set().contains(n) by {
        let row = vstd::array::spec_array_update(start.matrix[pr], pc, n as usize);
        let g = SudokuMatrixValue { matrix: vstd::array::spec_array_update(start.matrix, pr, row) };
        assert forall|r: int, c: int| in_grid(r, c) implies #[trigger] g.at(r, c) == if (r, c) == (pr, pc) {
            n
        } else {
            start.at(r, c)
        } by {
            assert(g.matrix@ == start.matrix@.update(pr, row));
            assert(row@ == start.matrix[pr]@.update(pc, n as usize));
        }
        assert(completes(g, start, cand)) by {
            assert forall|r: int, c: int| in_grid(r, c) implies #[trigger] g.at(r, c) == g.at(r, c) && (if start.is_empty_at(r, c) {
                &&& spec_is_sudoku_value(g.at(r, c))
                &&& cand[r][c][g.at(r, c) - 1]
                &&& forall|r2: int, c2: int|
                    in_grid(r2, c2) && #[trigger] is_peer(r, c, r2, c2) && (r2, c2) != (r, c) ==> g.at(r2, c2)
                        != g.at(r, c)
            } else {
                g.at(r, c) == start.at(r, c)
            }) by {
                if (r, c) == (pr, pc) {
                    assert forall|r2: int, c2: int|
                        in_grid(r2, c2) && #[trigger] is_peer(r, c, r2, c2) && (r2, c2) != (r, c) implies g.at(r2, c2)
                            != g.at(r, c) by {
                        assert(g.at(r2, c2) == start.at(r2, c2));
                    }
                }
            }
        }
        assert(found.contains(g));
        let j = choose|j: int| 0 <= j < found.len() && found[j] == g;
        assert(m[j] == n);
    }
    assert forall|n: int| #[trigger] m.to_set().contains(n) implies fit.contains(n) by {
        let j = choose|j: int| 0 <= j < m.len() && m[j] == n;
        assert(fit.contains(found[j].at(pr, pc)));
    }
    assert(m.to_set() =~= fit);
    m.unique_seq_to_set();
}

} // verus!
