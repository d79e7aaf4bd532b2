//! Candidate sets and the constraint-propagation engine.
//!
//! Each cell holds a set of values that are still possible for it. Three
//! passes narrow these sets:
//! - `evolution` (here): a naked single is removed from its peers;
//! - `evolution_by_check_position` (module `check_position`): hidden
//!   singles, pointing pairs and pointing triples;
//! - `evolution_by_position_mutex` (module `position_mutex`): naked pairs
//!   and naked triples.
//!
//! A caller runs the three passes in rounds until a round changes nothing.

use vstd::prelude::*;
use crate::entity::{
    is_sudoku_value, lemma_grid_ext, new_sudoku_matrix, spec_is_sudoku_value, SudokuMatrix,
    SudokuMatrixValue, SudokuValueType, SQUARE_OUTER_LEN,
};
use crate::check_position::check_position_pass;
use crate::position_mutex::position_mutex_pass;
use crate::rulers::{
    get_sudoku_ruler_partition_map, in_grid, init, is_peer, lemma_part_pos, lemma_pos_index,
    part_index, part_pos, pos_index, pos_is, same_part, Position, RulerContainer, RULER_COUNT,
};

verus! {

/// The candidate sets of a whole grid: row, column, then bit `b` for value
/// `b + 1`.
pub type CandView = Seq<Seq<Seq<bool>>>;

/// The cell's only candidate is bit `b`.
pub open spec fn is_single(cell: Seq<bool>, b: int) -> bool {
    &&& 0 <= b < 9
    &&& cell[b]
    &&& forall|j: int| 0 <= j < 9 && j != b ==> !#[trigger] cell[j]
}

/// The cell has exactly one candidate.
pub open spec fn determined(cell: Seq<bool>) -> bool {
    exists|b: int| is_single(cell, b)
}

/// The candidate set of cell (r, c) is the singleton of bit `b`.
pub open spec fn single_at(v: CandView, r: int, c: int, b: int) -> bool {
    is_single(v[r][c], b)
}

/// Builds a view cell by cell and bit by bit.
pub open spec fn view_of(f: spec_fn(int, int, int) -> bool) -> CandView {
    Seq::new(9, |r: int| Seq::new(9, |c: int| Seq::new(9, |b: int| f(r, c, b))))
}

/// A peer of (r, c) whose row-major index lies in `lo..hi` is the naked
/// single of bit `b`.
pub open spec fn single_peer_in(v: CandView, r: int, c: int, b: int, lo: int, hi: int) -> bool {
    exists|r2: int, c2: int|
        #![trigger single_at(v, r2, c2, b), is_peer(r, c, r2, c2)]
        in_grid(r2, c2) && is_peer(r, c, r2, c2) && lo <= 9 * r2 + c2 < hi && single_at(v, r2, c2, b)
}

/// Bit `b` of cell (r, c) after the naked-single pass has handled the cells
/// with row-major index below `n`. The pass reads `v` throughout; a cell
/// that is the naked single of `b` clears `b` in all its peers, itself
/// included, and then sets its own bit again, so the last such writer wins.
pub open spec fn naked_single_bit_upto(v: CandView, r: int, c: int, b: int, n: int) -> bool {
    let i = 9 * r + c;
    &&& !single_peer_in(v, r, c, b, i + 1, n)
    &&& ((i < n && single_at(v, r, c, b)) || (v[r][c][b] && !single_peer_in(
        v,
        r,
        c,
        b,
        0,
        if i < n { i } else { n },
    )))
}

/// The candidate sets after one naked-single pass over `v`.
pub open spec fn naked_single_pass(v: CandView) -> CandView {
    view_of(|r: int, c: int, b: int| naked_single_bit_upto(v, r, c, b, 81))
}

/// Some peer of (r, c) holds `value` in grid `g`.
pub open spec fn peer_holds(g: SudokuMatrixValue, r: int, c: int, value: int) -> bool {
    exists|r2: int, c2: int|
        #![trigger g.at(r2, c2), is_peer(r, c, r2, c2)]
        in_grid(r2, c2) && is_peer(r, c, r2, c2) && g.at(r2, c2) == value
}

/// The candidate sets seeded from a grid: a known cell holds its value
/// alone; an unknown cell holds every value that no known peer holds.
pub open spec fn seed_view(g: SudokuMatrixValue) -> CandView {
    view_of(
        |r: int, c: int, b: int|
            if spec_is_sudoku_value(g.at(r, c)) {
                g.at(r, c) == b + 1
            } else {
                !peer_holds(g, r, c, b + 1)
            },
    )
}

/// The grid read back from candidate sets: a determined cell holds its
/// value, every other cell is unknown.
pub open spec fn grid_matches(v: CandView, g: SudokuMatrixValue) -> bool {
    forall|r: int, c: int|
        #![trigger g.at(r, c)]
        in_grid(r, c) ==> if determined(v[r][c]) {
            is_single(v[r][c], g.at(r, c) - 1)
        } else {
            g.at(r, c) == 0
        }
}

/// The values still possible for one cell: bit `b` stands for value `b + 1`.
#[derive(Copy, Clone)]
pub struct Candidate {
    pub can: [bool; SQUARE_OUTER_LEN],
}

impl PartialEq for Candidate {
    fn eq(&self, other: &Candidate) -> (r: bool)
        ensures
            r == (self.can@ == other.can@),
    {
        let mut i: usize = 0;
        while i < SQUARE_OUTER_LEN
            invariant
                i <= 9,
                forall|j: int| 0 <= j < i ==> self.can@[j] == other.can@[j],
            decreases 9 - i,
        {
            if self.can[i] != other.can[i] {
                return false;
            }
            i += 1;
        }
        proof {
            assert(self.can@ =~= other.can@);
        }
        true
    }
}

impl vstd::std_specs::cmp::PartialEqSpecImpl for Candidate {
    open spec fn obeys_eq_spec() -> bool {
        true
    }

    open spec fn eq_spec(&self, other: &Candidate) -> bool {
        self.can@ == other.can@
    }
}

impl Candidate {
    /// Every value is possible.
    pub fn new_all() -> (r: Candidate)
        ensures
            forall|b: int| 0 <= b < 9 ==> #[trigger] r.can@[b],
    {
        Candidate { can: [true; SQUARE_OUTER_LEN] }
    }

    /// No value is possible.
    pub fn new_none() -> (r: Candidate)
        ensures
            forall|b: int| 0 <= b < 9 ==> !#[trigger] r.can@[b],
    {
        Candidate { can: [false; SQUARE_OUTER_LEN] }
    }

    /// The single possible value, if exactly one value is possible.
    pub fn only(&self) -> (r: Option<SudokuValueType>)
        ensures
            r matches Some(v) ==> 1 <= v <= 9 && is_single(self.can@, v - 1),
            r is None ==> !determined(self.can@),
    {
        let mut count: usize = 0;
        let mut some: usize = 0;
        let mut i: usize = 0;
        while i < SQUARE_OUTER_LEN
            invariant
                i <= 9,
                count <= i,
                count == 0 ==> forall|j: int| 0 <= j < i ==> !#[trigger] self.can@[j],
                count == 1 ==> some < i && self.can@[some as int] && forall|j: int|
                    0 <= j < i && j != some ==> !#[trigger] self.can@[j],
                count >= 2 ==> exists|j1: int, j2: int|
                    0 <= j1 < j2 < i && #[trigger] self.can@[j1] && #[trigger] self.can@[j2],
            decreases 9 - i,
        {
            if self.can[i] {
                proof {
                    if count == 1 {
                        assert(self.can@[some as int] && self.can@[i as int]);
                    }
                }
                count += 1;
                some = i;
            }
            i += 1;
        }
        if count == 1 {
            Some(some + 1)
        } else {
            proof {
                if count >= 2 {
                    let (j1, j2) = choose|j1: int, j2: int|
                        0 <= j1 < j2 < 9 && #[trigger] self.can@[j1] && #[trigger] self.can@[j2];
                    assert forall|b: int| !is_single(self.can@, b) by {
                        if is_single(self.can@, b) {
                            if b == j1 {
                                assert(!self.can@[j2]);
                            } else {
                                assert(!self.can@[j1]);
                            }
                        }
                    }
                }
            }
            None
        }
    }
}

/// The candidate sets of the whole grid.
#[derive(Copy, Clone)]
pub struct CandidateMatrix {
    pub can_matrix: SudokuMatrix<Candidate>,
}

impl View for CandidateMatrix {
    type V = CandView;

    open spec fn view(&self) -> CandView {
        Seq::new(9, |r: int| Seq::new(9, |c: int| self.can_matrix[r][c].can@))
    }
}

impl PartialEq for CandidateMatrix {
    fn eq(&self, other: &CandidateMatrix) -> (r: bool)
        ensures
            r == (self@ == other@),
    {
        let mut i: usize = 0;
        while i < SQUARE_OUTER_LEN
            invariant
                i <= 9,
                forall|a: int, b: int| 0 <= a < i && 0 <= b < 9 ==> #[trigger] self@[a][b] == other@[a][b],
            decreases 9 - i,
        {
            let mut j: usize = 0;
            while j < SQUARE_OUTER_LEN
                invariant
                    i < 9,
                    j <= 9,
                    forall|a: int, b: int| 0 <= a < i && 0 <= b < 9 ==> #[trigger] self@[a][b] == other@[a][b],
                    forall|b: int| 0 <= b < j ==> #[trigger] self@[i as int][b] == other@[i as int][b],
                decreases 9 - j,
            {
                if self.can_matrix[i][j] != other.can_matrix[i][j] {
                    proof {
                        assert(self@[i as int][j as int] != other@[i as int][j as int]);
                    }
                    return false;
                }
                j += 1;
            }
            i += 1;
        }
        proof {
            assert(self@ =~~= other@);
        }
        true
    }
}

impl vstd::std_specs::cmp::PartialEqSpecImpl for CandidateMatrix {
    open spec fn obeys_eq_spec() -> bool {
        true
    }

    open spec fn eq_spec(&self, other: &CandidateMatrix) -> bool {
        self@ == other@
    }
}

impl CandidateMatrix {
    /// Every value is possible in every cell.
    pub fn new() -> (r: CandidateMatrix)
        ensures
            forall|i: int, j: int, b: int|
                in_grid(i, j) && 0 <= b < 9 ==> #[trigger] r@[i][j][b],
    {
        CandidateMatrix { can_matrix: new_sudoku_matrix(Candidate::new_all()) }
    }

    /// Every cell has exactly one candidate.
    pub fn finished(&self) -> (r: bool)
        ensures
            r == forall|i: int, j: int| in_grid(i, j) ==> #[trigger] determined(self@[i][j]),
    {
        let mut finished = true;
        let mut i: usize = 0;
        while i < SQUARE_OUTER_LEN
            invariant
                i <= 9,
                finished == forall|a: int, b: int|
                    0 <= a < i && 0 <= b < 9 ==> #[trigger] determined(self@[a][b]),
            decreases 9 - i,
        {
            let mut j: usize = 0;
            while j < SQUARE_OUTER_LEN
                invariant
                    i < 9,
                    j <= 9,
                    finished == ((forall|a: int, b: int|
                        0 <= a < i && 0 <= b < 9 ==> #[trigger] determined(self@[a][b]))
                        && forall|b: int| 0 <= b < j ==> #[trigger] determined(self@[i as int][b])),
                decreases 9 - j,
            {
                let one = self.can_matrix[i][j].only();
                proof {
                    assert(self@[i as int][j as int] == self.can_matrix[i as int][j as int].can@);
                    if one is Some {
                        assert(is_single(self@[i as int][j as int], one.unwrap() - 1));
                    }
                }
                let ghost prev = finished;
                finished = finished && one.is_some();
                proof {
                    assert(finished == ((forall|a: int, b: int|
                        0 <= a < i && 0 <= b < 9 ==> #[trigger] determined(self@[a][b]))
                        && forall|b: int| 0 <= b < j + 1 ==> #[trigger] determined(self@[i as int][b]))) by {
                        if prev && !finished {
                            assert(!determined(self@[i as int][j as int]));
                        }
                    }
                }
                j += 1;
            }
            proof {
                assert(finished == forall|a: int, b: int|
                    0 <= a < i + 1 && 0 <= b < 9 ==> #[trigger] determined(self@[a][b])) by {
                    if !finished {
                        if !(forall|b: int| 0 <= b < 9 ==> #[trigger] determined(self@[i as int][b])) {
                            let b = choose|b: int| 0 <= b < 9 && !#[trigger] determined(self@[i as int][b]);
                            assert(!determined(self@[i as int][b]));
                        }
                    }
                }
            }
            i += 1;
        }
        finished
    }
}

/// Cell (r, c) has been visited by a sweep over the partitions of
/// (pr, pc) that has finished the families below `f` and the members below
/// `k` of family `f`.
pub open spec fn swept(pr: int, pc: int, r: int, c: int, f: int, k: int) -> bool {
    ||| same_part(0, pr, pc, r, c) && (0 < f || pos_index(0, r, c) < k)
    ||| same_part(1, pr, pc, r, c) && (1 < f || (1 == f && pos_index(1, r, c) < k))
    ||| same_part(2, pr, pc, r, c) && (2 < f || (2 == f && pos_index(2, r, c) < k))
}

/// One more member of a sweep: the cells swept are those swept before and
/// member `k` of the partition of family `f` that holds (pr, pc).
pub(crate) proof fn lemma_swept(pr: int, pc: int, f: int, k: int)
    requires
        in_grid(pr, pc),
        0 <= f < 3,
        0 <= k < 9,
    ensures
        ({
            let q = part_pos(f, part_index(f, pr, pc), k);
            &&& in_grid(q.0, q.1)
            &&& forall|r: int, c: int|
                in_grid(r, c) ==> (#[trigger] swept(pr, pc, r, c, f, k + 1) == (swept(pr, pc, r, c, f, k)
                    || (r == q.0 && c == q.1)))
        }),
        forall|r: int, c: int|
            in_grid(r, c) ==> (#[trigger] swept(pr, pc, r, c, f, 9) == swept(pr, pc, r, c, f + 1, 0)),
        forall|r: int, c: int| in_grid(r, c) ==> (#[trigger] swept(pr, pc, r, c, 3, 0) == is_peer(pr, pc, r, c)),
        forall|r: int, c: int| in_grid(r, c) ==> !#[trigger] swept(pr, pc, r, c, 0, 0),
{
    let q = part_pos(f, part_index(f, pr, pc), k);
    lemma_part_pos(f, part_index(f, pr, pc), k);
    assert forall|r: int, c: int| in_grid(r, c) implies (#[trigger] swept(pr, pc, r, c, f, k + 1) == (
    swept(pr, pc, r, c, f, k) || (r == q.0 && c == q.1))) by {
        lemma_pos_index(f, r, c);
    }
    assert forall|r: int, c: int| in_grid(r, c) implies (#[trigger] swept(pr, pc, r, c, f, 9)
        == swept(pr, pc, r, c, f + 1, 0)) by {
        lemma_pos_index(0, r, c);
        lemma_pos_index(1, r, c);
        lemma_pos_index(2, r, c);
    }
    assert forall|r: int, c: int| in_grid(r, c) implies (#[trigger] swept(pr, pc, r, c, 3, 0)
        == is_peer(pr, pc, r, c)) by {
        lemma_pos_index(0, r, c);
        lemma_pos_index(1, r, c);
        lemma_pos_index(2, r, c);
    }
}

/// The candidate set of the unknown cell `pos` seeded from `grid`: every
/// value that no peer holds.
fn seed_cell(rulers: &RulerContainer, grid: &SudokuMatrixValue, pos: &Position) -> (cand: Candidate)
    requires
        in_grid(pos.0 as int, pos.1 as int),
    ensures
        forall|b: int|
            0 <= b < 9 ==> #[trigger] cand.can@[b] == !peer_holds(*grid, pos.0 as int, pos.1 as int, b + 1),
{
    let ghost pr = pos.0 as int;
    let ghost pc = pos.1 as int;
    let parts = get_sudoku_ruler_partition_map(rulers, pos);
    let mut cand = Candidate::new_all();
    let mut f: usize = 0;
    proof {
        lemma_swept(pr, pc, 0, 0);
    }
    while f < RULER_COUNT
        invariant
            f <= 3,
            in_grid(pr, pc),
            pr == pos.0 as int && pc == pos.1 as int,
            forall|g: int, k: int|
                0 <= g < 3 && 0 <= k < 9 ==> pos_is(#[trigger] parts[g][k], part_pos(g, part_index(g, pr, pc), k)),
            forall|b: int|
                0 <= b < 9 ==> #[trigger] cand.can@[b] == !exists|r2: int, c2: int|
                    #![trigger grid.at(r2, c2), swept(pr, pc, r2, c2, f as int, 0)]
                    in_grid(r2, c2) && swept(pr, pc, r2, c2, f as int, 0) && grid.at(r2, c2) == b + 1,
        decreases 3 - f,
    {
        let mut k: usize = 0;
        while k < SQUARE_OUTER_LEN
            invariant
                f < 3,
                k <= 9,
                in_grid(pr, pc),
                pr == pos.0 as int && pc == pos.1 as int,
                forall|g: int, k: int|
                    0 <= g < 3 && 0 <= k < 9 ==> pos_is(#[trigger] parts[g][k], part_pos(g, part_index(g, pr, pc), k)),
                forall|b: int|
                    0 <= b < 9 ==> #[trigger] cand.can@[b] == !exists|r2: int, c2: int|
                        #![trigger grid.at(r2, c2), swept(pr, pc, r2, c2, f as int, k as int)]
                        in_grid(r2, c2) && swept(pr, pc, r2, c2, f as int, k as int) && grid.at(r2, c2) == b + 1,
            decreases 9 - k,
        {
            let q = parts[f][k];
            proof {
                lemma_swept(pr, pc, f as int, k as int);
                assert(pos_is(q, part_pos(f as int, part_index(f as int, pr, pc), k as int)));
            }
            let w = grid.matrix[q.0][q.1];
            let ghost before = cand;
            if is_sudoku_value(w) {
                cand.can[w - 1] = false;
            }
            proof {
                assert forall|b: int| 0 <= b < 9 implies #[trigger] cand.can@[b] == !exists|r2: int, c2: int|
                    #![trigger grid.at(r2, c2), swept(pr, pc, r2, c2, f as int, k + 1)]
                    in_grid(r2, c2) && swept(pr, pc, r2, c2, f as int, k + 1) && grid.at(r2, c2) == b + 1 by {
                    if grid.at(q.0 as int, q.1 as int) == b + 1 {
                        assert(swept(pr, pc, q.0 as int, q.1 as int, f as int, k + 1));
                    }
                    if exists|r2: int, c2: int|
                        #![trigger grid.at(r2, c2), swept(pr, pc, r2, c2, f as int, k + 1)]
                        in_grid(r2, c2) && swept(pr, pc, r2, c2, f as int, k + 1) && grid.at(r2, c2) == b + 1 {
                        let (r2, c2) = choose|r2: int, c2: int|
                            #![trigger grid.at(r2, c2), swept(pr, pc, r2, c2, f as int, k + 1)]
                            in_grid(r2, c2) && swept(pr, pc, r2, c2, f as int, k + 1) && grid.at(r2, c2) == b + 1;
                        if !(r2 == q.0 && c2 == q.1) {
                            assert(swept(pr, pc, r2, c2, f as int, k as int));
                        }
                    }
                    if exists|r2: int, c2: int|
                        #![trigger grid.at(r2, c2), swept(pr, pc, r2, c2, f as int, k as int)]
                        in_grid(r2, c2) && swept(pr, pc, r2, c2, f as int, k as int) && grid.at(r2, c2) == b + 1 {
                        let (r2, c2) = choose|r2: int, c2: int|
                            #![trigger grid.at(r2, c2), swept(pr, pc, r2, c2, f as int, k as int)]
                            in_grid(r2, c2) && swept(pr, pc, r2, c2, f as int, k as int) && grid.at(r2, c2) == b + 1;
                        assert(swept(pr, pc, r2, c2, f as int, k + 1));
                    }
                    assert(before.can@[b] == !exists|r2: int, c2: int|
                        #![trigger grid.at(r2, c2), swept(pr, pc, r2, c2, f as int, k as int)]
                        in_grid(r2, c2) && swept(pr, pc, r2, c2, f as int, k as int) && grid.at(r2, c2) == b + 1);
                }
            }
            k += 1;
        }
        proof {
            lemma_swept(pr, pc, f as int, 0);
            assert forall|b: int| 0 <= b < 9 implies #[trigger] cand.can@[b] == !exists|r2: int, c2: int|
                #![trigger grid.at(r2, c2), swept(pr, pc, r2, c2, f + 1, 0)]
                in_grid(r2, c2) && swept(pr, pc, r2, c2, f + 1, 0) && grid.at(r2, c2) == b + 1 by {
                if exists|r2: int, c2: int|
                    #![trigger grid.at(r2, c2), swept(pr, pc, r2, c2, f + 1, 0)]
                    in_grid(r2, c2) && swept(pr, pc, r2, c2, f + 1, 0) && grid.at(r2, c2) == b + 1 {
                    let (r2, c2) = choose|r2: int, c2: int|
                        #![trigger grid.at(r2, c2), swept(pr, pc, r2, c2, f + 1, 0)]
                        in_grid(r2, c2) && swept(pr, pc, r2, c2, f + 1, 0) && grid.at(r2, c2) == b + 1;
                    assert(swept(pr, pc, r2, c2, f as int, 9));
                }
                if exists|r2: int, c2: int|
                    #![trigger grid.at(r2, c2), swept(pr, pc, r2, c2, f as int, 9)]
                    in_grid(r2, c2) && swept(pr, pc, r2, c2, f as int, 9) && grid.at(r2, c2) == b + 1 {
                    let (r2, c2) = choose|r2: int, c2: int|
                        #![trigger grid.at(r2, c2), swept(pr, pc, r2, c2, f as int, 9)]
                        in_grid(r2, c2) && swept(pr, pc, r2, c2, f as int, 9) && grid.at(r2, c2) == b + 1;
                    assert(swept(pr, pc, r2, c2, f + 1, 0));
                }
            }
        }
        f += 1;
    }
    proof {
        lemma_swept(pr, pc, 0, 0);
        assert forall|b: int| 0 <= b < 9 implies #[trigger] cand.can@[b] == !exists|r2: int, c2: int|
            #![trigger grid.at(r2, c2), is_peer(pr, pc, r2, c2)]
            in_grid(r2, c2) && is_peer(pr, pc, r2, c2) && grid.at(r2, c2) == b + 1 by {
            if exists|r2: int, c2: int|
                #![trigger grid.at(r2, c2), is_peer(pr, pc, r2, c2)]
                in_grid(r2, c2) && is_peer(pr, pc, r2, c2) && grid.at(r2, c2) == b + 1 {
                let (r2, c2) = choose|r2: int, c2: int|
                    #![trigger grid.at(r2, c2), is_peer(pr, pc, r2, c2)]
                    in_grid(r2, c2) && is_peer(pr, pc, r2, c2) && grid.at(r2, c2) == b + 1;
                assert(swept(pr, pc, r2, c2, 3, 0));
            }
            if exists|r2: int, c2: int|
                #![trigger grid.at(r2, c2), swept(pr, pc, r2, c2, 3, 0)]
                in_grid(r2, c2) && swept(pr, pc, r2, c2, 3, 0) && grid.at(r2, c2) == b + 1 {
                let (r2, c2) = choose|r2: int, c2: int|
                    #![trigger grid.at(r2, c2), swept(pr, pc, r2, c2, 3, 0)]
                    in_grid(r2, c2) && swept(pr, pc, r2, c2, 3, 0) && grid.at(r2, c2) == b + 1;
                assert(is_peer(pr, pc, r2, c2));
            }
        }
    }
    cand
}

impl vstd::std_specs::convert::FromSpecImpl<SudokuMatrixValue> for CandidateMatrix {
    open spec fn obeys_from_spec() -> bool {
        false
    }

    open spec fn from_spec(value: SudokuMatrixValue) -> CandidateMatrix {
        choose|m: CandidateMatrix| m@ == seed_view(value)
    }
}

impl From<SudokuMatrixValue> for CandidateMatrix {
    /// Seeds the candidate sets from a grid: a known cell gets its value
    /// alone, an unknown cell every value that no known peer holds.
    fn from(value: SudokuMatrixValue) -> (target: CandidateMatrix)
        ensures
            target@ == seed_view(value),
    {
        let rulers = init();
        let mut target = CandidateMatrix::new();
        let mut row: usize = 0;
        while row < SQUARE_OUTER_LEN
            invariant
                row <= 9,
                forall|r: int, c: int, b: int|
                    0 <= r < row && 0 <= c < 9 && 0 <= b < 9 ==> #[trigger] target.can_matrix[r][c].can[b]
                        == seed_view(value)[r][c][b],
            decreases 9 - row,
        {
            let mut col: usize = 0;
            while col < SQUARE_OUTER_LEN
                invariant
                    row < 9,
                    col <= 9,
                    forall|r: int, c: int, b: int|
                        ((0 <= r < row && 0 <= c < 9) || (r == row && 0 <= c < col)) && 0 <= b < 9
                            ==> #[trigger] target.can_matrix[r][c].can[b] == seed_view(value)[r][c][b],
                decreases 9 - col,
            {
                let v = value.matrix[row][col];
                if is_sudoku_value(v) {
                    target.can_matrix[row][col] = Candidate::new_none();
                    target.can_matrix[row][col].can[v - 1] = true;
                } else {
                    target.can_matrix[row][col] = seed_cell(&rulers, &value, &(row, col));
                }
                proof {
                    assert forall|b: int| 0 <= b < 9 implies #[trigger] target.can_matrix[row as int][col as int].can[b]
                        == seed_view(value)[row as int][col as int][b] by {
                        assert(value.at(row as int, col as int) == v);

                    }
                }
                col += 1;
            }
            row += 1;
        }
        proof {
            assert forall|r: int, c: int, b: int| in_grid(r, c) && 0 <= b < 9 implies #[trigger] target@[r][c][b]
                == seed_view(value)[r][c][b] by {
                assert(target@[r][c][b] == target.can_matrix[r][c].can[b]);
            }
            assert(target@ =~~= seed_view(value));
        }
        target
    }
}

impl vstd::std_specs::convert::FromSpecImpl<CandidateMatrix> for SudokuMatrixValue {
    open spec fn obeys_from_spec() -> bool {
        false
    }

    open spec fn from_spec(value: CandidateMatrix) -> SudokuMatrixValue {
        choose|g: SudokuMatrixValue| grid_matches(value@, g)
    }
}

impl From<CandidateMatrix> for SudokuMatrixValue {
    /// Reads the grid back: a determined cell gets its value, any other cell
    /// is unknown.
    fn from(value: CandidateMatrix) -> (target: SudokuMatrixValue)
        ensures
            grid_matches(value@, target),
    {
        let mut target = SudokuMatrixValue::new();
        proof {
            assert forall|r: int, c: int| in_grid(r, c) implies #[trigger] target.matrix[r][c] == 0 by {
                assert(target.at(r, c) == 0);
            }
        }
        let mut row: usize = 0;
        while row < SQUARE_OUTER_LEN
            invariant
                row <= 9,
                forall|r: int, c: int| in_grid(r, c) && r >= row ==> #[trigger] target.matrix[r][c] == 0,
                forall|r: int, c: int|
                    #![trigger target.matrix[r][c]]
                    0 <= r < row && 0 <= c < 9 ==> if determined(value@[r][c]) {
                        is_single(value@[r][c], target.at(r, c) - 1)
                    } else {
                        target.at(r, c) == 0
                    },
            decreases 9 - row,
        {
            let mut col: usize = 0;
            while col < SQUARE_OUTER_LEN
                invariant
                    row < 9,
                    col <= 9,
                    forall|r: int, c: int|
                        in_grid(r, c) && (r > row || (r == row && c >= col)) ==> #[trigger] target.matrix[r][c] == 0,
                    forall|r: int, c: int|
                        #![trigger target.matrix[r][c]]
                        ((0 <= r < row && 0 <= c < 9) || (r == row && 0 <= c < col)) ==> if determined(
                            value@[r][c],
                        ) {
                            is_single(value@[r][c], target.at(r, c) - 1)
                        } else {
                            target.at(r, c) == 0
                        },
                decreases 9 - col,
            {
                proof {
                    assert(value@[row as int][col as int] == value.can_matrix[row as int][col as int].can@);
                }
                if let Some(v) = value.can_matrix[row][col].only() {
                    target.matrix[row][col] = v;
                    proof {
                        assert(determined(value@[row as int][col as int]));
                    }
                }
                col += 1;
            }
            row += 1;
        }
        target
    }
}

impl CandidateMatrix {
    /// Clears bit `value - 1` in every peer of `pos`, `pos` itself included.
    fn set_partition_black_list(&mut self, rulers: &RulerContainer, value: &SudokuValueType, pos: &Position)
        requires
            1 <= *value <= 9,
            in_grid(pos.0 as int, pos.1 as int),
        ensures
            forall|r: int, c: int, b: int|
                in_grid(r, c) && 0 <= b < 9 ==> #[trigger] final(self)@[r][c][b] == (old(self)@[r][c][b]
                    && !(b == *value - 1 && is_peer(pos.0 as int, pos.1 as int, r, c))),
    {
        let ghost pr = pos.0 as int;
        let ghost pc = pos.1 as int;
        let ghost start = self@;
        proof {
            assert forall|r: int, c: int, b: int| in_grid(r, c) && 0 <= b < 9 implies #[trigger] self.can_matrix[r][c].can[b]
                == start[r][c][b] by {
                assert(start[r][c][b] == self.can_matrix[r][c].can[b]);
            }
        }
        let parts = get_sudoku_ruler_partition_map(rulers, pos);
        let mut f: usize = 0;
        proof {
            lemma_swept(pr, pc, 0, 0);
        }
        while f < RULER_COUNT
            invariant
                f <= 3,
                1 <= *value <= 9,
                in_grid(pr, pc),
                pr == pos.0 as int && pc == pos.1 as int,
                start == old(self)@,
                forall|g: int, k: int|
                    0 <= g < 3 && 0 <= k < 9 ==> pos_is(#[trigger] parts[g][k], part_pos(g, part_index(g, pr, pc), k)),
                forall|r: int, c: int, b: int|
                    in_grid(r, c) && 0 <= b < 9 ==> #[trigger] self.can_matrix[r][c].can[b] == (start[r][c][b]
                        && !(b == *value - 1 && swept(pr, pc, r, c, f as int, 0))),
            decreases 3 - f,
        {
            let mut k: usize = 0;
            while k < SQUARE_OUTER_LEN
                invariant
                    f < 3,
                    k <= 9,
                    1 <= *value <= 9,
                    in_grid(pr, pc),
                    pr == pos.0 as int && pc == pos.1 as int,
                    start == old(self)@,
                    forall|g: int, k: int|
                        0 <= g < 3 && 0 <= k < 9 ==> pos_is(#[trigger] parts[g][k], part_pos(g, part_index(g, pr, pc), k)),
                    forall|r: int, c: int, b: int|
                        in_grid(r, c) && 0 <= b < 9 ==> #[trigger] self.can_matrix[r][c].can[b] == (start[r][c][b]
                            && !(b == *value - 1 && swept(pr, pc, r, c, f as int, k as int))),
                decreases 9 - k,
            {
                let q = parts[f][k];
                proof {
                    lemma_swept(pr, pc, f as int, k as int);
                    assert(pos_is(q, part_pos(f as int, part_index(f as int, pr, pc), k as int)));
                }
                self.can_matrix[q.0][q.1].can[*value - 1] = false;
                k += 1;
            }
            proof {
                lemma_swept(pr, pc, f as int, 0);
            }
            f += 1;
        }
        proof {
            lemma_swept(pr, pc, 0, 0);
            assert forall|r: int, c: int, b: int| in_grid(r, c) && 0 <= b < 9 implies #[trigger] self@[r][c][b]
                == self.can_matrix[r][c].can[b] by {}
        }
    }
}

/// How one cell (rr, cc) that is the naked single of `b` in `v` changes the
/// state of the naked-single pass; other cells and bits are left alone.
proof fn lemma_naked_single_step(v: CandView, rr: int, cc: int, r: int, c: int, b: int)
    requires
        in_grid(rr, cc),
        in_grid(r, c),
        0 <= b < 9,
    ensures
        (single_at(v, rr, cc, b) && is_peer(r, c, rr, cc)) ==> naked_single_bit_upto(
            v,
            r,
            c,
            b,
            9 * rr + cc + 1,
        ) == (r == rr && c == cc),
        !(single_at(v, rr, cc, b) && is_peer(r, c, rr, cc)) ==> naked_single_bit_upto(
            v,
            r,
            c,
            b,
            9 * rr + cc + 1,
        ) == naked_single_bit_upto(v, r, c, b, 9 * rr + cc),
{
    let n = 9 * rr + cc;
    let i = 9 * r + c;
    if single_at(v, rr, cc, b) && is_peer(r, c, rr, cc) {
        if i < n {
            assert(single_peer_in(v, r, c, b, i + 1, n + 1));
        } else if i > n {
            assert(single_peer_in(v, r, c, b, 0, n + 1));
        } else {
            assert(r == rr && c == cc);
            assert(!single_peer_in(v, r, c, b, i + 1, n + 1));
        }
    } else {
        assert(single_peer_in(v, r, c, b, i + 1, n + 1) == single_peer_in(v, r, c, b, i + 1, n)) by {
            if single_peer_in(v, r, c, b, i + 1, n + 1) {
                let (r2, c2) = choose|r2: int, c2: int|
                    #![trigger single_at(v, r2, c2, b), is_peer(r, c, r2, c2)]
                    in_grid(r2, c2) && is_peer(r, c, r2, c2) && i + 1 <= 9 * r2 + c2 < n + 1 && single_at(v, r2, c2, b);
                if 9 * r2 + c2 == n {
                    assert(r2 == rr && c2 == cc);
                }
            }
        }
        let lo = if i < n { i } else { n };
        let lo1 = if i < n + 1 { i } else { n + 1 };
        assert(single_peer_in(v, r, c, b, 0, lo1) == single_peer_in(v, r, c, b, 0, lo)) by {
            if single_peer_in(v, r, c, b, 0, lo1) {
                let (r2, c2) = choose|r2: int, c2: int|
                    #![trigger single_at(v, r2, c2, b), is_peer(r, c, r2, c2)]
                    in_grid(r2, c2) && is_peer(r, c, r2, c2) && 0 <= 9 * r2 + c2 < lo1 && single_at(v, r2, c2, b);
                if 9 * r2 + c2 == n {
                    assert(r2 == rr && c2 == cc);
                }
            }
        }
        if i == n {
            assert(r == rr && c == cc);
        }
    }
}

impl CandidateMatrix {
    /// Naked singles: every cell whose candidate set is a singleton removes
    /// that value from all its peers. The pass reads the sets as they were
    /// when it began, so the order of the cells matters only where two peers
    /// are naked singles of one value.
    pub fn evolution(&mut self)
        ensures
            final(self)@ == naked_single_pass(old(self)@),
            narrower(final(self)@, old(self)@),
    {
        let rulers = init();
        let shadow = *self;
        let ghost v = shadow@;
        proof {
            assert forall|r: int, c: int, b: int| in_grid(r, c) && 0 <= b < 9 implies #[trigger] self.can_matrix[r][c].can[b]
                == naked_single_bit_upto(v, r, c, b, 0) by {
                assert(v[r][c][b] == self.can_matrix[r][c].can[b]);
            }
        }
        let mut row: usize = 0;
        while row < SQUARE_OUTER_LEN
            invariant
                row <= 9,
                v == shadow@,
                forall|r: int, c: int, b: int|
                    in_grid(r, c) && 0 <= b < 9 ==> #[trigger] self.can_matrix[r][c].can[b]
                        == naked_single_bit_upto(v, r, c, b, 9 * row),
            decreases 9 - row,
        {
            let mut col: usize = 0;
            while col < SQUARE_OUTER_LEN
                invariant
                    row < 9,
                    col <= 9,
                    v == shadow@,
                    forall|r: int, c: int, b: int|
                        in_grid(r, c) && 0 <= b < 9 ==> #[trigger] self.can_matrix[r][c].can[b]
                            == naked_single_bit_upto(v, r, c, b, 9 * row + col),
                decreases 9 - col,
            {
                proof {
                    assert(v[row as int][col as int] == shadow.can_matrix[row as int][col as int].can@);
                }
                if let Some(value) = shadow.can_matrix[row][col].only() {
                    let ghost pre = *self;
                    self.set_partition_black_list(&rulers, &value, &(row, col));
                    let ghost mid = *self;
                    self.can_matrix[row][col].can[value - 1] = true;
                    proof {
                        assert(single_at(v, row as int, col as int, value - 1));
                        assert forall|r: int, c: int, b: int| in_grid(r, c) && 0 <= b < 9 implies #[trigger] self.can_matrix[r][c].can[b]
                            == naked_single_bit_upto(v, r, c, b, 9 * row + col + 1) by {
                            lemma_naked_single_step(v, row as int, col as int, r, c, b);
                            assert(pre@[r][c][b] == pre.can_matrix[r][c].can[b]);
                            assert(mid@[r][c][b] == mid.can_matrix[r][c].can[b]);
                            assert(is_peer(r, c, row as int, col as int) == is_peer(row as int, col as int, r, c));
                            if b != value - 1 {
                                assert(!single_at(v, row as int, col as int, b));
                            }
                        }
                    }
                } else {
                    proof {
                        assert forall|r: int, c: int, b: int| in_grid(r, c) && 0 <= b < 9 implies #[trigger] self.can_matrix[r][c].can[b]
                            == naked_single_bit_upto(v, r, c, b, 9 * row + col + 1) by {
                            lemma_naked_single_step(v, row as int, col as int, r, c, b);
                            assert(!single_at(v, row as int, col as int, b));
                        }
                    }
                }
                col += 1;
            }
            row += 1;
        }
        proof {
            assert forall|r: int, c: int, b: int| in_grid(r, c) && 0 <= b < 9 implies #[trigger] self@[r][c][b]
                == naked_single_pass(v)[r][c][b] by {
                assert(self@[r][c][b] == self.can_matrix[r][c].can[b]);
            }
            assert(self@ =~~= naked_single_pass(v));
        }
    }
}

/// `v` has 9 rows of 9 cells of 9 bits.
pub open spec fn shaped(v: CandView) -> bool {
    &&& v.len() == 9
    &&& forall|r: int| 0 <= r < 9 ==> (#[trigger] v[r]).len() == 9
    &&& forall|r: int, c: int| in_grid(r, c) ==> (#[trigger] v[r][c]).len() == 9
}

/// Every bit set in `w` is set in `v`.
pub open spec fn narrower(w: CandView, v: CandView) -> bool {
    forall|r: int, c: int, b: int| in_grid(r, c) && 0 <= b < 9 && #[trigger] w[r][c][b] ==> v[r][c][b]
}

/// Seeding a grid that is all unknown, or all known, and reading the grid
/// back gives the grid itself.
pub proof fn lemma_round_trip(g: SudokuMatrixValue, h: SudokuMatrixValue)
    requires
        (forall|r: int, c: int| in_grid(r, c) ==> #[trigger] g.at(r, c) == 0) || (forall|r: int, c: int|
            in_grid(r, c) ==> spec_is_sudoku_value(#[trigger] g.at(r, c))),
        grid_matches(seed_view(g), h),
    ensures
        h == g,
{
    let v = seed_view(g);
    if forall|r: int, c: int| in_grid(r, c) ==> #[trigger] g.at(r, c) == 0 {
        assert forall|r: int, c: int| in_grid(r, c) implies #[trigger] h.at(r, c) == g.at(r, c) by {
            assert(g.at(r, c) == 0);
            assert forall|b: int| 0 <= b < 9 implies #[trigger] v[r][c][b] by {
                if peer_holds(g, r, c, b + 1) {
                    let (r2, c2) = choose|r2: int, c2: int|
                        #![trigger g.at(r2, c2), is_peer(r, c, r2, c2)]
                        in_grid(r2, c2) && is_peer(r, c, r2, c2) && g.at(r2, c2) == b + 1;
                    assert(g.at(r2, c2) == 0);
                }
            }
            if determined(v[r][c]) {
                let b = choose|b: int| is_single(v[r][c], b);
                assert(v[r][c][(b + 1) % 9]);
            }
            assert(h.at(r, c) == h.at(r, c));
        }
    } else {
        assert forall|r: int, c: int| in_grid(r, c) implies #[trigger] h.at(r, c) == g.at(r, c) by {
            assert(spec_is_sudoku_value(g.at(r, c)));
            assert(is_single(v[r][c], g.at(r, c) - 1));
            assert(h.at(r, c) == h.at(r, c));
        }
    }
    lemma_grid_ext(h, g);
}

/// Seeding from a grid that holds `value` at (r, c) leaves (r, c) with
/// `value` alone and clears `value` in every other peer, unless that peer
/// holds `value` itself.
pub proof fn lemma_seed_eliminates(g: SudokuMatrixValue, r: int, c: int, r2: int, c2: int)
    requires
        in_grid(r, c),
        in_grid(r2, c2),
        spec_is_sudoku_value(g.at(r, c)),
        is_peer(r, c, r2, c2),
        (r2, c2) != (r, c),
        g.at(r2, c2) != g.at(r, c),
    ensures
        is_single(seed_view(g)[r][c], g.at(r, c) - 1),
        !seed_view(g)[r2][c2][g.at(r, c) - 1],
{
    assert(is_peer(r2, c2, r, c));
    assert(g.at(r, c) == g.at(r, c));
}

/// A pass that leaves the candidate sets unchanged leaves them unchanged
/// when run again.
pub proof fn lemma_fixed_points(v: CandView)
    ensures
        naked_single_pass(v) == v ==> naked_single_pass(naked_single_pass(v)) == naked_single_pass(v),
        check_position_pass(v) == v ==> check_position_pass(check_position_pass(v)) == check_position_pass(v),
        position_mutex_pass(v) == v ==> position_mutex_pass(position_mutex_pass(v))
            == position_mutex_pass(v),
{
}

/// Unless two peers are naked singles of one value, the naked-single pass
/// clears bit `b` of a cell exactly when some other peer is the naked
/// single of `b`, and keeps every other bit.
pub proof fn lemma_naked_single_clears_peers(v: CandView, r: int, c: int, b: int)
    requires
        in_grid(r, c),
        0 <= b < 9,
        !(single_at(v, r, c, b) && exists|r2: int, c2: int|
            #![trigger single_at(v, r2, c2, b), is_peer(r, c, r2, c2)]
            in_grid(r2, c2) && is_peer(r, c, r2, c2) && (r2, c2) != (r, c) && single_at(v, r2, c2, b)),
    ensures
        naked_single_pass(v)[r][c][b] == (v[r][c][b] && !exists|r2: int, c2: int|
            #![trigger single_at(v, r2, c2, b), is_peer(r, c, r2, c2)]
            in_grid(r2, c2) && is_peer(r, c, r2, c2) && (r2, c2) != (r, c) && single_at(v, r2, c2, b)),
{
    let i = 9 * r + c;
    if exists|r2: int, c2: int|
        #![trigger single_at(v, r2, c2, b), is_peer(r, c, r2, c2)]
        in_grid(r2, c2) && is_peer(r, c, r2, c2) && (r2, c2) != (r, c) && single_at(v, r2, c2, b) {
        let (r2, c2) = choose|r2: int, c2: int|
            #![trigger single_at(v, r2, c2, b), is_peer(r, c, r2, c2)]
            in_grid(r2, c2) && is_peer(r, c, r2, c2) && (r2, c2) != (r, c) && single_at(v, r2, c2, b);
        if 9 * r2 + c2 > i {
            assert(single_peer_in(v, r, c, b, i + 1, 81));
        } else {
            assert(9 * r2 + c2 != i);
            assert(single_peer_in(v, r, c, b, 0, i));
        }
    } else {
        if single_peer_in(v, r, c, b, i + 1, 81) {
            let (r2, c2) = choose|r2: int, c2: int|
                #![trigger single_at(v, r2, c2, b), is_peer(r, c, r2, c2)]
                in_grid(r2, c2) && is_peer(r, c, r2, c2) && i + 1 <= 9 * r2 + c2 < 81 && single_at(v, r2, c2, b);
            assert((r2, c2) != (r, c));
        }
        if single_peer_in(v, r, c, b, 0, i) {
            let (r2, c2) = choose|r2: int, c2: int|
                #![trigger single_at(v, r2, c2, b), is_peer(r, c, r2, c2)]
                in_grid(r2, c2) && is_peer(r, c, r2, c2) && 0 <= 9 * r2 + c2 < i && single_at(v, r2, c2, b);
            assert((r2, c2) != (r, c));
        }
    }
}

} // verus!
