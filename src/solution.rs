//! Solutions: complete grids that obey the rules, and the candidate sets
//! that still allow them.

use vstd::prelude::*;
use vstd::set_lib::{lemma_int_range, lemma_subset_equality, set_int_range};
use crate::algorithm::CandView;
use crate::check_position::part_at;
use crate::entity::{spec_is_sudoku_value, SudokuMatrixValue};
use crate::rulers::{in_grid, is_peer, lemma_part_pos};

verus! {

/// Every cell holds a sudoku value and no two peers hold the same one.
pub open spec fn rule_valid(g: SudokuMatrixValue) -> bool {
    &&& forall|r: int, c: int| in_grid(r, c) ==> spec_is_sudoku_value(#[trigger] g.at(r, c))
    &&& forall|r: int, c: int, r2: int, c2: int|
        in_grid(r, c) && in_grid(r2, c2) && #[trigger] is_peer(r, c, r2, c2) && (r, c) != (r2, c2) ==> g.at(r, c)
            != g.at(r2, c2)
}

/// The candidate sets `v` still allow the grid `g`: every cell admits the
/// value that `g` holds there.
pub open spec fn admits(v: CandView, g: SudokuMatrixValue) -> bool {
    forall|r: int, c: int| in_grid(r, c) ==> #[trigger] v[r][c][g.at(r, c) - 1]
}

/// A grid that obeys the rules holds every value once in each partition.
pub proof fn lemma_partition_holds_all(g: SudokuMatrixValue, t: int, x: int)
    requires
        rule_valid(g),
        0 <= t < 27,
        1 <= x <= 9,
    ensures
        exists|k: int| 0 <= k < 9 && #[trigger] g.at(part_at(t, k).0, part_at(t, k).1) == x,
{
    let vals = Seq::new(9, |k: int| g.at(part_at(t, k).0, part_at(t, k).1));
    assert forall|k1: int, k2: int| 0 <= k1 < vals.len() && 0 <= k2 < vals.len() && k1 != k2 implies vals[k1] != vals[k2] by {
        lemma_part_pos(t / 9, t % 9, k1);
        lemma_part_pos(t / 9, t % 9, k2);
        let p1 = part_at(t, k1);
        let p2 = part_at(t, k2);
        assert(is_peer(p1.0, p1.1, p2.0, p2.1));
        assert(p1 != p2);
    }
    assert(vals.no_duplicates());
    vals.unique_seq_to_set();
    lemma_int_range(1, 10);
    assert forall|y: int| vals.to_set().contains(y) implies set_int_range(1, 10).contains(y) by {
        let k = choose|k: int| 0 <= k < vals.len() && vals[k] == y;
        lemma_part_pos(t / 9, t % 9, k);
        assert(spec_is_sudoku_value(g.at(part_at(t, k).0, part_at(t, k).1)));
    }
    lemma_subset_equality(vals.to_set(), set_int_range(1, 10));
    assert(set_int_range(1, 10).contains(x));
    assert(vals.to_set().contains(x));
    let k = choose|k: int| 0 <= k < vals.len() && vals[k] == x;
    assert(g.at(part_at(t, k).0, part_at(t, k).1) == x);
}

} // verus!
