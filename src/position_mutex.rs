//! The position-mutex pass: naked pairs and naked triples, found one
//! partition at a time.

use vstd::prelude::*;
use crate::algorithm::{narrower, view_of, CandView, Candidate, CandidateMatrix};
use crate::check_position::part_at;
use crate::entity::{SudokuMatrixValue, SQUARE_OUTER_LEN};
use crate::solution::{admits, lemma_partition_holds_all, rule_valid};
use crate::algorithm::shaped;
use crate::rulers::{
    each_sudoku_partition, in_grid, init, lemma_part_pos, lemma_pos_index, part_index, part_pos,
    pos_index, pos_is, PositionPartition,
};

verus! {

/// Which members of partition `t` admit bit `b`, by member index.
pub open spec fn admit_row(v: CandView, t: int, b: int) -> Seq<bool> {
    Seq::new(9, |k: int| v[part_at(t, k).0][part_at(t, k).1][b])
}

/// The number of set entries among the first `n` of `s`.
pub open spec fn count_true(s: Seq<bool>, n: int) -> int
    decreases n,
{
    if n <= 0 {
        0
    } else {
        count_true(s, n - 1) + if s[n - 1] {
            1int
        } else {
            0int
        }
    }
}

/// Bits a < b are each admitted by exactly the same two members of
/// partition `t`.
pub open spec fn mutex_pair(v: CandView, t: int, a: int, b: int) -> bool {
    &&& a < b
    &&& count_true(admit_row(v, t, a), 9) == 2
    &&& count_true(admit_row(v, t, b), 9) == 2
    &&& admit_row(v, t, a) == admit_row(v, t, b)
}

/// Bits a < b < c are each admitted by exactly the same three members of
/// partition `t`.
pub open spec fn mutex_triple(v: CandView, t: int, a: int, b: int, c: int) -> bool {
    &&& a < b < c
    &&& count_true(admit_row(v, t, a), 9) == 3
    &&& count_true(admit_row(v, t, b), 9) == 3
    &&& count_true(admit_row(v, t, c), 9) == 3
    &&& admit_row(v, t, a) == admit_row(v, t, b)
    &&& admit_row(v, t, a) == admit_row(v, t, c)
}

/// `w` with every member of partition `t` that `row` marks replaced by
/// `cell`.
pub open spec fn restrict(w: CandView, t: int, row: Seq<bool>, cell: Seq<bool>) -> CandView {
    view_of(
        |r: int, c: int, x: int|
            if part_index(t / 9, r, c) == t % 9 && row[pos_index(t / 9, r, c)] {
                cell[x]
            } else {
                w[r][c][x]
            },
    )
}

/// The candidate set that holds exactly the bits in `bits`.
pub open spec fn cell_of(bits: Set<int>) -> Seq<bool> {
    Seq::new(9, |j: int| bits.contains(j))
}

/// The naked-pair rule on partition `t`, read from the snapshot `v`, after
/// its first `n` bit pairs (pair `n` is (n / 9, n % 9)), starting from `w`.
pub open spec fn mutex_pairs_upto(w: CandView, v: CandView, t: int, n: int) -> CandView
    decreases n,
{
    if n <= 0 {
        w
    } else {
        let prev = mutex_pairs_upto(w, v, t, n - 1);
        let a = (n - 1) / 9;
        let b = (n - 1) % 9;
        if mutex_pair(v, t, a, b) {
            restrict(prev, t, admit_row(v, t, a), cell_of(set![a, b]))
        } else {
            prev
        }
    }
}

/// The naked-triple rule on partition `t`, read from the snapshot `v`, after
/// its first `n` bit triples (triple `n` is (n / 81, n / 9 % 9, n % 9)),
/// starting from `w`.
pub open spec fn mutex_triples_upto(w: CandView, v: CandView, t: int, n: int) -> CandView
    decreases n,
{
    if n <= 0 {
        w
    } else {
        let prev = mutex_triples_upto(w, v, t, n - 1);
        let a = (n - 1) / 81;
        let b = (n - 1) / 9 % 9;
        let c = (n - 1) % 9;
        if mutex_triple(v, t, a, b, c) {
            restrict(prev, t, admit_row(v, t, a), cell_of(set![a, b, c]))
        } else {
            prev
        }
    }
}

/// The position-mutex rule on partition `t`: naked pairs, then naked
/// triples, both found in the sets as they were when the partition's turn
/// came.
pub open spec fn mutex_step(v: CandView, t: int) -> CandView {
    mutex_triples_upto(mutex_pairs_upto(v, v, t, 81), v, t, 729)
}

/// The position-mutex pass after its first `n` partitions.
pub open spec fn mutex_upto(v: CandView, n: int) -> CandView
    decreases n,
{
    if n <= 0 {
        v
    } else {
        mutex_step(mutex_upto(v, n - 1), n - 1)
    }
}

/// The candidate sets after one full position-mutex pass.
pub open spec fn position_mutex_pass(v: CandView) -> CandView {
    mutex_upto(v, 27)
}

/// One row of the admissibility table: for each member of a partition, its
/// position and whether it admits the row's value.
pub type AdmitRow = [(usize, usize, bool); SQUARE_OUTER_LEN];

/// The admissibility flags of a table row.
pub open spec fn row_flags(row: AdmitRow) -> Seq<bool> {
    Seq::new(9, |k: int| row[k].2)
}

/// How many members a table row marks.
fn count_marked(row: &AdmitRow) -> (n: usize)
    ensures
        n == count_true(row_flags(*row), 9),
{
    let mut n: usize = 0;
    let mut k: usize = 0;
    while k < SQUARE_OUTER_LEN
        invariant
            k <= 9,
            n <= k,
            n == count_true(row_flags(*row), k as int),
        decreases 9 - k,
    {
        if row[k].2 {
            n += 1;
        }
        k += 1;
    }
    n
}

/// Two table rows are equal.
fn rows_equal(x: &AdmitRow, y: &AdmitRow) -> (r: bool)
    ensures
        r == (forall|k: int| 0 <= k < 9 ==> #[trigger] x[k] == y[k]),
{
    let mut k: usize = 0;
    while k < SQUARE_OUTER_LEN
        invariant
            k <= 9,
            forall|j: int| 0 <= j < k ==> #[trigger] x[j] == y[j],
        decreases 9 - k,
    {
        if x[k].0 != y[k].0 || x[k].1 != y[k].1 || x[k].2 != y[k].2 {
            return false;
        }
        k += 1;
    }
    true
}

/// Restricting the members that admit bit `a` in the snapshot `v` to a set
/// of bits that all of them admit keeps the sets inside `v`.
proof fn lemma_restrict_narrows(w: CandView, v: CandView, t: int, a: int, bits: Set<int>)
    requires
        0 <= t < 27,
        narrower(w, v),
        forall|x: int| #[trigger] bits.contains(x) ==> 0 <= x < 9 && admit_row(v, t, x) == admit_row(v, t, a),
    ensures
        narrower(restrict(w, t, admit_row(v, t, a), cell_of(bits)), v),
{
    let w2 = restrict(w, t, admit_row(v, t, a), cell_of(bits));
    assert forall|r: int, c: int, x: int| in_grid(r, c) && 0 <= x < 9 && #[trigger] w2[r][c][x] implies v[r][c][x] by {
        let f = t / 9;
        lemma_pos_index(f, r, c);
        if part_index(f, r, c) == t % 9 && admit_row(v, t, a)[pos_index(f, r, c)] {
            let k = pos_index(f, r, c);
            assert(bits.contains(x));
            assert(admit_row(v, t, x)[k] == admit_row(v, t, a)[k]);
            assert(part_at(t, k) == (r, c));
        }
    }
}

impl CandidateMatrix {
    /// Replaces every member of partition `t` that `row` marks by `cell`.
    fn restrict_cells(&mut self, row: &AdmitRow, cell: &Candidate, Ghost(t): Ghost<int>)
        requires
            0 <= t < 27,
            forall|k: int|
                0 <= k < 9 ==> #[trigger] row[k].0 as int == part_at(t, k).0 && row[k].1 as int == part_at(t, k).1,
        ensures
            final(self)@ == restrict(old(self)@, t, row_flags(*row), cell.can@),
    {
        let ghost v = self@;
        let ghost f = t / 9;
        let ghost i = t % 9;
        proof {
            assert forall|r: int, c: int, x: int| in_grid(r, c) && 0 <= x < 9 implies #[trigger] self.can_matrix[r][c].can[x]
                == v[r][c][x] by {
                assert(v[r][c][x] == self.can_matrix[r][c].can[x]);
            }
        }
        let mut k: usize = 0;
        while k < SQUARE_OUTER_LEN
            invariant
                k <= 9,
                0 <= t < 27,
                f == t / 9,
                i == t % 9,
                forall|j: int|
                    0 <= j < 9 ==> #[trigger] row[j].0 as int == part_at(t, j).0 && row[j].1 as int == part_at(t, j).1,
                forall|r: int, c: int, x: int|
                    in_grid(r, c) && 0 <= x < 9 ==> #[trigger] self.can_matrix[r][c].can[x] == if part_index(f, r, c)
                        == i && pos_index(f, r, c) < k && row_flags(*row)[pos_index(f, r, c)] {
                        cell.can@[x]
                    } else {
                        v[r][c][x]
                    },
            decreases 9 - k,
        {
            proof {
                lemma_part_pos(f, i, k as int);
                assert(row[k as int].0 as int == part_at(t, k as int).0);
                assert forall|r: int, c: int| in_grid(r, c) && part_index(f, r, c) == i && pos_index(f, r, c) == k
                    implies r == row[k as int].0 && c == row[k as int].1 by {
                    lemma_pos_index(f, r, c);
                }
            }
            let ghost pre = *self;
            if row[k].2 {
                self.can_matrix[row[k].0][row[k].1] = *cell;
            }
            proof {
                assert forall|r: int, c: int, x: int| in_grid(r, c) && 0 <= x < 9 implies #[trigger] self.can_matrix[r][c].can[x]
                    == if part_index(f, r, c) == i && pos_index(f, r, c) < k + 1 && row_flags(*row)[pos_index(f, r, c)] {
                    cell.can@[x]
                } else {
                    v[r][c][x]
                } by {
                    assert(pre.can_matrix[r][c].can[x] == pre.can_matrix[r][c].can[x]);
                    lemma_pos_index(f, r, c);
                    if r == row[k as int].0 && c == row[k as int].1 {
                        assert(part_index(f, r, c) == i && pos_index(f, r, c) == k);
                        assert(row_flags(*row)[k as int] == row[k as int].2);
                        if row[k as int].2 {
                            assert(self.can_matrix[r][c] == *cell);
                        } else {
                            assert(self.can_matrix[r][c] == pre.can_matrix[r][c]);
                        }
                    } else {
                        assert(self.can_matrix[r][c] == pre.can_matrix[r][c]);
                        assert(!(part_index(f, r, c) == i && pos_index(f, r, c) == k));
                    }
                }
            }
            k += 1;
        }
        proof {
            assert forall|r: int, c: int, x: int| in_grid(r, c) && 0 <= x < 9 implies #[trigger] self@[r][c][x]
                == restrict(v, t, row_flags(*row), cell.can@)[r][c][x] by {
                assert(self@[r][c][x] == self.can_matrix[r][c].can[x]);
                lemma_pos_index(f, r, c);
            }
            assert(self@ =~~= restrict(v, t, row_flags(*row), cell.can@));
        }
    }
}

impl CandidateMatrix {
    /// The position-mutex rule on one partition, partition `t` of the flat
    /// numbering.
    fn position_mutex_in(&mut self, partition: &PositionPartition, Ghost(t): Ghost<int>)
        requires
            0 <= t < 27,
            forall|k: int| 0 <= k < 9 ==> pos_is(#[trigger] partition[k], part_at(t, k)),
        ensures
            final(self)@ == mutex_step(old(self)@, t),
            narrower(final(self)@, old(self)@),
    {
        let ghost v = self@;
        // value -> member -> (row, col, admits)
        let mut candidate_map: [AdmitRow; SQUARE_OUTER_LEN] = [[(0, 0, false); SQUARE_OUTER_LEN];
            SQUARE_OUTER_LEN];
        let mut value_id: usize = 0;
        while value_id < SQUARE_OUTER_LEN
            invariant
                value_id <= 9,
                0 <= t < 27,
                v == self@,
                forall|k: int| 0 <= k < 9 ==> pos_is(#[trigger] partition[k], part_at(t, k)),
                forall|a: int, k: int|
                    0 <= a < value_id && 0 <= k < 9 ==> #[trigger] candidate_map[a][k] == (
                        partition[k].0,
                        partition[k].1,
                        admit_row(v, t, a)[k],
                    ),
            decreases 9 - value_id,
        {
            let mut k: usize = 0;
            while k < SQUARE_OUTER_LEN
                invariant
                    value_id < 9,
                    k <= 9,
                    0 <= t < 27,
                    v == self@,
                    forall|k: int| 0 <= k < 9 ==> pos_is(#[trigger] partition[k], part_at(t, k)),
                    forall|a: int, j: int|
                        0 <= a < value_id && 0 <= j < 9 ==> #[trigger] candidate_map[a][j] == (
                            partition[j].0,
                            partition[j].1,
                            admit_row(v, t, a)[j],
                        ),
                    forall|j: int|
                        0 <= j < k ==> #[trigger] candidate_map[value_id as int][j] == (
                            partition[j].0,
                            partition[j].1,
                            admit_row(v, t, value_id as int)[j],
                        ),
                decreases 9 - k,
            {
                let (row, col) = partition[k];
                proof {
                    lemma_part_pos(t / 9, t % 9, k as int);
                    assert(v[row as int][col as int][value_id as int]
                        == self.can_matrix[row as int][col as int].can[value_id as int]);
                }
                candidate_map[value_id][k] = (row, col, self.can_matrix[row][col].can[value_id]);
                k += 1;
            }
            value_id += 1;
        }
        proof {
            assert forall|a: int| 0 <= a < 9 implies #[trigger] row_flags(candidate_map[a]) == admit_row(v, t, a) by {
                assert(row_flags(candidate_map[a]) =~= admit_row(v, t, a));
            }
            assert forall|a: int, b: int| 0 <= a < 9 && 0 <= b < 9 implies (admit_row(v, t, a) == admit_row(v, t, b))
                == (forall|k: int| 0 <= k < 9 ==> #[trigger] candidate_map[a][k] == candidate_map[b][k]) by {
                if forall|k: int| 0 <= k < 9 ==> #[trigger] candidate_map[a][k] == candidate_map[b][k] {
                    assert forall|k: int| 0 <= k < 9 implies admit_row(v, t, a)[k] == admit_row(v, t, b)[k] by {
                        assert(candidate_map[a][k] == candidate_map[b][k]);
                    }
                    assert(admit_row(v, t, a) =~= admit_row(v, t, b));
                }
            }
        }
        // pairs of values that only the same two members admit
        let mut double_map = [false; SQUARE_OUTER_LEN];
        let mut value_id: usize = 0;
        while value_id < SQUARE_OUTER_LEN
            invariant
                value_id <= 9,
                forall|a: int| 0 <= a < 9 ==> #[trigger] row_flags(candidate_map[a]) == admit_row(v, t, a),
                forall|a: int| 0 <= a < value_id ==> #[trigger] double_map[a] == (count_true(admit_row(v, t, a), 9) == 2),
            decreases 9 - value_id,
        {
            double_map[value_id] = count_marked(&candidate_map[value_id]) == 2;
            value_id += 1;
        }
        let mut first: usize = 0;
        while first < SQUARE_OUTER_LEN
            invariant
                first <= 9,
                0 <= t < 27,
                forall|k: int| 0 <= k < 9 ==> pos_is(#[trigger] partition[k], part_at(t, k)),
                forall|a: int, k: int|
                    0 <= a < 9 && 0 <= k < 9 ==> #[trigger] candidate_map[a][k] == (
                        partition[k].0,
                        partition[k].1,
                        admit_row(v, t, a)[k],
                    ),
                forall|a: int| 0 <= a < 9 ==> #[trigger] row_flags(candidate_map[a]) == admit_row(v, t, a),
                forall|a: int, b: int| 0 <= a < 9 && 0 <= b < 9 ==> (admit_row(v, t, a) == admit_row(v, t, b))
                    == (forall|k: int| 0 <= k < 9 ==> #[trigger] candidate_map[a][k] == candidate_map[b][k]),
                forall|a: int| 0 <= a < 9 ==> #[trigger] double_map[a] == (count_true(admit_row(v, t, a), 9) == 2),
                self@ == mutex_pairs_upto(v, v, t, 9 * first),
                narrower(self@, v),
            decreases 9 - first,
        {
            let mut second: usize = 0;
            while second < SQUARE_OUTER_LEN
                invariant
                    first < 9,
                    second <= 9,
                    0 <= t < 27,
                    forall|k: int| 0 <= k < 9 ==> pos_is(#[trigger] partition[k], part_at(t, k)),
                    forall|a: int, k: int|
                        0 <= a < 9 && 0 <= k < 9 ==> #[trigger] candidate_map[a][k] == (
                            partition[k].0,
                            partition[k].1,
                            admit_row(v, t, a)[k],
                        ),
                    forall|a: int| 0 <= a < 9 ==> #[trigger] row_flags(candidate_map[a]) == admit_row(v, t, a),
                    forall|a: int, b: int| 0 <= a < 9 && 0 <= b < 9 ==> (admit_row(v, t, a) == admit_row(v, t, b))
                        == (forall|k: int| 0 <= k < 9 ==> #[trigger] candidate_map[a][k] == candidate_map[b][k]),
                    forall|a: int| 0 <= a < 9 ==> #[trigger] double_map[a] == (count_true(admit_row(v, t, a), 9) == 2),
                    self@ == mutex_pairs_upto(v, v, t, 9 * first + second),
                    narrower(self@, v),
                decreases 9 - second,
            {
                proof {
                    assert((9 * first + second) / 9 == first);
                    assert((9 * first + second) % 9 == second);
                }
                if first < second && double_map[first] && double_map[second] && rows_equal(
                    &candidate_map[first],
                    &candidate_map[second],
                ) {
                    let mut cell = Candidate::new_none();
                    cell.can[first] = true;
                    cell.can[second] = true;
                    proof {
                        let bits = set![first as int, second as int];
                        assert(cell.can@ =~= cell_of(bits));
                        lemma_restrict_narrows(self@, v, t, first as int, bits);
                    }
                    self.restrict_cells(&candidate_map[first], &cell, Ghost(t));
                }
                second += 1;
            }
            first += 1;
        }
        let ghost paired = self@;
        // triples of values that only the same three members admit
        let mut triple_map = [false; SQUARE_OUTER_LEN];
        let mut value_id: usize = 0;
        while value_id < SQUARE_OUTER_LEN
            invariant
                value_id <= 9,
                forall|a: int| 0 <= a < 9 ==> #[trigger] row_flags(candidate_map[a]) == admit_row(v, t, a),
                forall|a: int| 0 <= a < value_id ==> #[trigger] triple_map[a] == (count_true(admit_row(v, t, a), 9) == 3),
            decreases 9 - value_id,
        {
            triple_map[value_id] = count_marked(&candidate_map[value_id]) == 3;
            value_id += 1;
        }
        let mut first: usize = 0;
        while first < SQUARE_OUTER_LEN
            invariant
                first <= 9,
                0 <= t < 27,
                forall|a: int| 0 <= a < 9 ==> #[trigger] row_flags(candidate_map[a]) == admit_row(v, t, a),
                forall|a: int, k: int|
                    0 <= a < 9 && 0 <= k < 9 ==> #[trigger] candidate_map[a][k] == (
                        partition[k].0,
                        partition[k].1,
                        admit_row(v, t, a)[k],
                    ),
                forall|k: int| 0 <= k < 9 ==> pos_is(#[trigger] partition[k], part_at(t, k)),
                forall|a: int, b: int| 0 <= a < 9 && 0 <= b < 9 ==> (admit_row(v, t, a) == admit_row(v, t, b))
                    == (forall|k: int| 0 <= k < 9 ==> #[trigger] candidate_map[a][k] == candidate_map[b][k]),
                forall|a: int| 0 <= a < 9 ==> #[trigger] triple_map[a] == (count_true(admit_row(v, t, a), 9) == 3),
                paired == mutex_pairs_upto(v, v, t, 81),
                self@ == mutex_triples_upto(paired, v, t, 81 * first),
                narrower(self@, v),
            decreases 9 - first,
        {
            let mut second: usize = 0;
            while second < SQUARE_OUTER_LEN
                invariant
                    first < 9,
                    second <= 9,
                    0 <= t < 27,
                    forall|a: int| 0 <= a < 9 ==> #[trigger] row_flags(candidate_map[a]) == admit_row(v, t, a),
                    forall|a: int, k: int|
                        0 <= a < 9 && 0 <= k < 9 ==> #[trigger] candidate_map[a][k] == (
                            partition[k].0,
                            partition[k].1,
                            admit_row(v, t, a)[k],
                        ),
                    forall|k: int| 0 <= k < 9 ==> pos_is(#[trigger] partition[k], part_at(t, k)),
                    forall|a: int, b: int| 0 <= a < 9 && 0 <= b < 9 ==> (admit_row(v, t, a) == admit_row(v, t, b))
                        == (forall|k: int| 0 <= k < 9 ==> #[trigger] candidate_map[a][k] == candidate_map[b][k]),
                    forall|a: int| 0 <= a < 9 ==> #[trigger] triple_map[a] == (count_true(admit_row(v, t, a), 9) == 3),
                    paired == mutex_pairs_upto(v, v, t, 81),
                    self@ == mutex_triples_upto(paired, v, t, 81 * first + 9 * second),
                    narrower(self@, v),
                decreases 9 - second,
            {
                let mut third: usize = 0;
                while third < SQUARE_OUTER_LEN
                    invariant
                        first < 9,
                        second < 9,
                        third <= 9,
                        0 <= t < 27,
                        forall|a: int| 0 <= a < 9 ==> #[trigger] row_flags(candidate_map[a]) == admit_row(v, t, a),
                        forall|a: int, k: int|
                            0 <= a < 9 && 0 <= k < 9 ==> #[trigger] candidate_map[a][k] == (
                                partition[k].0,
                                partition[k].1,
                                admit_row(v, t, a)[k],
                            ),
                        forall|k: int| 0 <= k < 9 ==> pos_is(#[trigger] partition[k], part_at(t, k)),
                        forall|a: int, b: int| 0 <= a < 9 && 0 <= b < 9 ==> (admit_row(v, t, a) == admit_row(v, t, b))
                            == (forall|k: int| 0 <= k < 9 ==> #[trigger] candidate_map[a][k] == candidate_map[b][k]),
                        forall|a: int| 0 <= a < 9 ==> #[trigger] triple_map[a] == (count_true(admit_row(v, t, a), 9) == 3),
                        paired == mutex_pairs_upto(v, v, t, 81),
                        self@ == mutex_triples_upto(paired, v, t, 81 * first + 9 * second + third),
                        narrower(self@, v),
                    decreases 9 - third,
                {
                    proof {
                        let n = 81 * first + 9 * second + third;
                        assert(n / 81 == first);
                        assert(n / 9 == 9 * first + second);
                        assert(n / 9 % 9 == second);
                        assert(n % 9 == third);
                    }
                    if first < second && second < third && triple_map[first] && triple_map[second]
                        && triple_map[third] && rows_equal(&candidate_map[first], &candidate_map[second])
                        && rows_equal(&candidate_map[first], &candidate_map[third]) {
                        let mut cell = Candidate::new_none();
                        cell.can[first] = true;
                        cell.can[second] = true;
                        cell.can[third] = true;
                        proof {
                            let bits = set![first as int, second as int, third as int];
                            assert(cell.can@ =~= cell_of(bits));
                            lemma_restrict_narrows(self@, v, t, first as int, bits);
                        }
                        self.restrict_cells(&candidate_map[first], &cell, Ghost(t));
                    }
                    third += 1;
                }
                second += 1;
            }
            first += 1;
        }
    }

    /// Naked pairs and triples. For every partition in turn (rows, then
    /// columns, then boxes): where two values are admitted by exactly the
    /// same two members and by no other, those members keep these two values
    /// alone; likewise for three values and three members.
    pub fn evolution_by_position_mutex(&mut self)
        ensures
            final(self)@ == position_mutex_pass(old(self)@),
            narrower(final(self)@, old(self)@),
    {
        let rulers = init();
        let parts = each_sudoku_partition(&rulers);
        let mut t: usize = 0;
        while t < 27
            invariant
                t <= 27,
                parts@.len() == 27,
                forall|t: int, k: int|
                    0 <= t < 27 && 0 <= k < 9 ==> pos_is(#[trigger] parts@[t].1[k], part_pos(t / 9, t % 9, k)),
                self@ == mutex_upto(old(self)@, t as int),
                narrower(self@, old(self)@),
            decreases 27 - t,
        {
            let (_, partition) = parts[t];
            self.position_mutex_in(&partition, Ghost(t as int));
            t += 1;
        }
    }
}

/// When two bits a < b are each admitted by exactly the same two members of
/// partition `t`, and no other member admits either, the naked-pair rule
/// leaves both members with a and b alone, once it has reached that pair.
pub proof fn lemma_naked_pair_rule(w: CandView, v: CandView, t: int, a: int, b: int, k1: int, k2: int)
    requires
        0 <= t < 27,
        0 <= a < b < 9,
        0 <= k1 < k2 < 9,
        forall|x: int, k: int|
            (x == a || x == b) && 0 <= k < 9 ==> #[trigger] v[part_at(t, k).0][part_at(t, k).1][x] == (k == k1 || k
                == k2),
    ensures
        mutex_pairs_upto(w, v, t, 9 * a + b + 1)[part_at(t, k1).0][part_at(t, k1).1] == cell_of(set![a, b]),
        mutex_pairs_upto(w, v, t, 9 * a + b + 1)[part_at(t, k2).0][part_at(t, k2).1] == cell_of(set![a, b]),
{
    assert((9 * a + b) / 9 == a);
    assert((9 * a + b) % 9 == b);
    let ra = admit_row(v, t, a);
    assert(ra =~= admit_row(v, t, b));
    assert(count_true(ra, 9) == 2) by {
        reveal_with_fuel(count_true, 10);
    }
    assert(mutex_pair(v, t, a, b));
    let f = t / 9;
    lemma_part_pos(f, t % 9, k1);
    lemma_part_pos(f, t % 9, k2);
    let out = mutex_pairs_upto(w, v, t, 9 * a + b + 1);
    assert(out[part_at(t, k1).0][part_at(t, k1).1] =~= cell_of(set![a, b]));
    assert(out[part_at(t, k2).0][part_at(t, k2).1] =~= cell_of(set![a, b]));
}

/// Three set entries at distinct indices below `n` count at least three.
proof fn lemma_count_three(s: Seq<bool>, n: int, i: int, j: int, l: int)
    requires
        0 <= n <= 9,
        0 <= i < 9 && 0 <= j < 9 && 0 <= l < 9,
        i != j && i != l && j != l,
        s[i] && s[j] && s[l],
    ensures
        count_true(s, n) >= (if i < n { 1int } else { 0 }) + (if j < n { 1int } else { 0 }) + (if l < n {
            1int
        } else {
            0
        }),
    decreases n,
{
    if n > 0 {
        lemma_count_three(s, n - 1, i, j, l);
    }
}

/// Four set entries at distinct indices below `n` count at least four.
proof fn lemma_count_four(s: Seq<bool>, n: int, i: int, j: int, l: int, m: int)
    requires
        0 <= n <= 9,
        0 <= i < 9 && 0 <= j < 9 && 0 <= l < 9 && 0 <= m < 9,
        i != j && i != l && i != m && j != l && j != m && l != m,
        s[i] && s[j] && s[l] && s[m],
    ensures
        count_true(s, n) >= (if i < n { 1int } else { 0 }) + (if j < n { 1int } else { 0 }) + (if l < n {
            1int
        } else {
            0
        }) + (if m < n { 1int } else { 0 }),
    decreases n,
{
    if n > 0 {
        lemma_count_four(s, n - 1, i, j, l, m);
    }
}

/// In a solution that the sets allow, bit `x` is placed at some member of
/// partition `t` that admits it.
proof fn lemma_placed(v: CandView, g: SudokuMatrixValue, t: int, x: int) -> (k: int)
    requires
        rule_valid(g),
        admits(v, g),
        0 <= t < 27,
        0 <= x < 9,
    ensures
        0 <= k < 9,
        g.at(part_at(t, k).0, part_at(t, k).1) == x + 1,
        admit_row(v, t, x)[k],
{
    lemma_partition_holds_all(g, t, x + 1);
    let k = choose|k: int| 0 <= k < 9 && #[trigger] g.at(part_at(t, k).0, part_at(t, k).1) == x + 1;
    lemma_part_pos(t / 9, t % 9, k);
    let p = part_at(t, k);
    assert(v[p.0][p.1][g.at(p.0, p.1) - 1]);
    k
}

/// The premise of a naked pair: bits a and b are admitted by members k1
/// and k2 of partition `t` and by no other member.
pub open spec fn naked_pair_at(v: CandView, t: int, a: int, b: int, k1: int, k2: int) -> bool {
    &&& 0 <= a < b < 9
    &&& 0 <= k1 < k2 < 9
    &&& forall|x: int, k: int|
        (x == a || x == b) && 0 <= k < 9 ==> #[trigger] admit_row(v, t, x)[k] == (k == k1 || k == k2)
}

/// Where the sets allow a solution, the naked pair (a, b) on members k1, k2
/// is the only matching pair whose members include k1 or k2.
proof fn lemma_pair_rows(v: CandView, g: SudokuMatrixValue, t: int, a: int, b: int, k1: int, k2: int, c: int, d: int)
    requires
        rule_valid(g),
        admits(v, g),
        0 <= t < 27,
        naked_pair_at(v, t, a, b, k1, k2),
        0 <= c < 9,
        0 <= d < 9,
        mutex_pair(v, t, c, d),
        admit_row(v, t, c)[k1] || admit_row(v, t, c)[k2],
    ensures
        c == a && d == b,
{
    let ka = lemma_placed(v, g, t, a);
    let kb = lemma_placed(v, g, t, b);
    let kc = lemma_placed(v, g, t, c);
    let kd = lemma_placed(v, g, t, d);
    let rc = admit_row(v, t, c);
    assert(kc != kd);
    assert(rc[kd]);
    let km = if rc[k1] { k1 } else { k2 };
    if km != kc && km != kd {
        lemma_count_three(rc, 9, km, kc, kd);
    }
    // the member km holds c or d, and also a or b
    assert(km == ka || km == kb);
    assert(c == a || c == b || d == a || d == b) by {
        if km == kc {
            if km == ka {
                assert(c == a);
            } else {
                assert(c == b);
            }
        } else {
            if km == ka {
                assert(d == a);
            } else {
                assert(d == b);
            }
        }
    }
    // c and d share their members with a or b, so they are a and b
    let ra = admit_row(v, t, a);
    if c == a || c == b || d == a || d == b {
        assert(rc == ra || rc == admit_row(v, t, b));
        assert(rc[kc] && rc[kd]);
        assert(kc == k1 || kc == k2);
        assert(kd == k1 || kd == k2);
        assert(ka == k1 || ka == k2);
        assert(kb == k1 || kb == k2);
        if c != a && c != b {
            if kc == ka {
                lemma_same_member(g, t, kc, c, a);
            } else {
                lemma_same_member(g, t, kc, c, b);
            }
        }
        if d != a && d != b {
            if kd == ka {
                lemma_same_member(g, t, kd, d, a);
            } else {
                lemma_same_member(g, t, kd, d, b);
            }
        }
    }
}

/// A member holds one value in a solution.
proof fn lemma_same_member(g: SudokuMatrixValue, t: int, k: int, x: int, y: int)
    requires
        g.at(part_at(t, k).0, part_at(t, k).1) == x + 1,
        g.at(part_at(t, k).0, part_at(t, k).1) == y + 1,
    ensures
        x == y,
{
}

/// Where the sets allow a solution, no matching triple has k1 or k2 of the
/// naked pair (a, b) among its members.
proof fn lemma_triple_rows(
    v: CandView,
    g: SudokuMatrixValue,
    t: int,
    a: int,
    b: int,
    k1: int,
    k2: int,
    c: int,
    d: int,
    e: int,
)
    requires
        rule_valid(g),
        admits(v, g),
        0 <= t < 27,
        naked_pair_at(v, t, a, b, k1, k2),
        0 <= c < 9 && 0 <= d < 9 && 0 <= e < 9,
        mutex_triple(v, t, c, d, e),
    ensures
        !admit_row(v, t, c)[k1] && !admit_row(v, t, c)[k2],
{
    let rc = admit_row(v, t, c);
    if rc[k1] || rc[k2] {
        let ka = lemma_placed(v, g, t, a);
        let kb = lemma_placed(v, g, t, b);
        let kc = lemma_placed(v, g, t, c);
        let kd = lemma_placed(v, g, t, d);
        let ke = lemma_placed(v, g, t, e);
        assert(kc != kd && kc != ke && kd != ke);
        assert(rc[kd] && rc[ke]);
        let km = if rc[k1] { k1 } else { k2 };
        if km != kc && km != kd && km != ke {
            lemma_count_four(rc, 9, km, kc, kd, ke);
        }
        // km holds one of c, d, e and one of a, b: then that bit has a row
        // with two members and three at once
        assert(ka == k1 || ka == k2);
        assert(kb == k1 || kb == k2);
        assert(km == ka || km == kb);
        let x = if km == kc { c } else if km == kd { d } else { e };
        let y = if km == ka { a } else { b };
        lemma_same_member(g, t, km, x, y);
        let ry = admit_row(v, t, y);
        assert(ry[k1] && ry[k2]);
        assert forall|k: int| 0 <= k < 9 && k != k1 && k != k2 implies !ry[k] by {}
        assert(admit_row(v, t, x) == rc);
        assert(count_true(ry, 9) == 2) by {
            reveal_with_fuel(count_true, 10);
        }
    }
}

/// Restricting members that `row` does not mark leaves member `k` alone.
proof fn lemma_restrict_other(w: CandView, t: int, row: Seq<bool>, cell: Seq<bool>, k: int)
    requires
        0 <= t < 27,
        0 <= k < 9,
        !row[k],
        w[part_at(t, k).0][part_at(t, k).1].len() == 9,
    ensures
        restrict(w, t, row, cell)[part_at(t, k).0][part_at(t, k).1] == w[part_at(t, k).0][part_at(t, k).1],
{
    lemma_part_pos(t / 9, t % 9, k);
    let p = part_at(t, k);
    assert(restrict(w, t, row, cell)[p.0][p.1] =~= w[p.0][p.1]);
}

/// Restricting members that `row` marks sets member `k` to `cell`.
proof fn lemma_restrict_marked(w: CandView, t: int, row: Seq<bool>, cell: Seq<bool>, k: int)
    requires
        0 <= t < 27,
        0 <= k < 9,
        row[k],
        cell.len() == 9,
    ensures
        restrict(w, t, row, cell)[part_at(t, k).0][part_at(t, k).1] == cell,
{
    lemma_part_pos(t / 9, t % 9, k);
    let p = part_at(t, k);
    assert(restrict(w, t, row, cell)[p.0][p.1] =~= cell);
}

/// Once the naked-pair rule has reached the pair (a, b), members k1 and k2
/// keep a and b alone through the remaining pairs.
proof fn lemma_pairs_keep(v: CandView, g: SudokuMatrixValue, t: int, a: int, b: int, k1: int, k2: int, n: int)
    requires
        rule_valid(g),
        admits(v, g),
        0 <= t < 27,
        naked_pair_at(v, t, a, b, k1, k2),
        9 * a + b + 1 <= n <= 81,
    ensures
        mutex_pairs_upto(v, v, t, n)[part_at(t, k1).0][part_at(t, k1).1] == cell_of(set![a, b]),
        mutex_pairs_upto(v, v, t, n)[part_at(t, k2).0][part_at(t, k2).1] == cell_of(set![a, b]),
    decreases n,
{
    let c = (n - 1) / 9;
    let d = (n - 1) % 9;
    let prev = mutex_pairs_upto(v, v, t, n - 1);
    let cell = cell_of(set![a, b]);
    if n == 9 * a + b + 1 {
        assert(c == a && d == b);
        let ra = admit_row(v, t, a);
        assert(ra =~= admit_row(v, t, b));
        assert(count_true(ra, 9) == 2) by {
            reveal_with_fuel(count_true, 10);
        }
        lemma_restrict_marked(prev, t, ra, cell, k1);
        lemma_restrict_marked(prev, t, ra, cell, k2);
    } else {
        lemma_pairs_keep(v, g, t, a, b, k1, k2, n - 1);
        if mutex_pair(v, t, c, d) {
            let rc = admit_row(v, t, c);
            if rc[k1] || rc[k2] {
                lemma_pair_rows(v, g, t, a, b, k1, k2, c, d);
            }
            lemma_restrict_other(prev, t, rc, cell_of(set![c, d]), k1);
            lemma_restrict_other(prev, t, rc, cell_of(set![c, d]), k2);
        }
    }
}

/// The naked-triple rule leaves members k1 and k2 of the naked pair alone.
proof fn lemma_triples_keep(
    w: CandView,
    v: CandView,
    g: SudokuMatrixValue,
    t: int,
    a: int,
    b: int,
    k1: int,
    k2: int,
    n: int,
)
    requires
        rule_valid(g),
        admits(v, g),
        0 <= t < 27,
        naked_pair_at(v, t, a, b, k1, k2),
        0 <= n <= 729,
        w[part_at(t, k1).0][part_at(t, k1).1] == cell_of(set![a, b]),
        w[part_at(t, k2).0][part_at(t, k2).1] == cell_of(set![a, b]),
    ensures
        mutex_triples_upto(w, v, t, n)[part_at(t, k1).0][part_at(t, k1).1] == cell_of(set![a, b]),
        mutex_triples_upto(w, v, t, n)[part_at(t, k2).0][part_at(t, k2).1] == cell_of(set![a, b]),
    decreases n,
{
    if n > 0 {
        lemma_triples_keep(w, v, g, t, a, b, k1, k2, n - 1);
        let prev = mutex_triples_upto(w, v, t, n - 1);
        let c = (n - 1) / 81;
        let d = (n - 1) / 9 % 9;
        let e = (n - 1) % 9;
        if mutex_triple(v, t, c, d, e) {
            lemma_triple_rows(v, g, t, a, b, k1, k2, c, d, e);
            let rc = admit_row(v, t, c);
            lemma_restrict_other(prev, t, rc, cell_of(set![c, d, e]), k1);
            lemma_restrict_other(prev, t, rc, cell_of(set![c, d, e]), k2);
        }
    }
}

/// Where the sets allow a solution, a naked pair (a, b) on members k1 and
/// k2 of partition `t` leaves both members with a and b alone once the
/// position-mutex rule has handled that partition.
pub proof fn lemma_naked_pair_step(v: CandView, g: SudokuMatrixValue, t: int, a: int, b: int, k1: int, k2: int)
    requires
        rule_valid(g),
        admits(v, g),
        0 <= t < 27,
        naked_pair_at(v, t, a, b, k1, k2),
    ensures
        mutex_step(v, t)[part_at(t, k1).0][part_at(t, k1).1] == cell_of(set![a, b]),
        mutex_step(v, t)[part_at(t, k2).0][part_at(t, k2).1] == cell_of(set![a, b]),
{
    lemma_pairs_keep(v, g, t, a, b, k1, k2, 81);
    lemma_triples_keep(mutex_pairs_upto(v, v, t, 81), v, g, t, a, b, k1, k2, 729);
}

} // verus!
