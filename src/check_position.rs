//! The hidden-single pass: hidden singles, pointing pairs and pointing
//! triples, found one partition and one value at a time.

use vstd::prelude::*;
use crate::algorithm::{narrower, shaped, view_of, CandView, Candidate, CandidateMatrix};
use crate::entity::{SudokuMatrixValue, SQUARE_OUTER_LEN};
use crate::solution::{admits, lemma_partition_holds_all, rule_valid};
use crate::rulers::{
    is_peer,     each_sudoku_partition, get_sudoku_ruler_partition_map, in_grid, init, lemma_part_pos,
    lemma_pos_index, part_index, part_pos, pos_index, pos_is, same_part, Position,
    PositionPartition, RulerContainer, RULER_COUNT,
};

verus! {

/// Member `k` of the partition with flat number `t` (family `t / 9`,
/// partition `t % 9`).
pub open spec fn part_at(t: int, k: int) -> (int, int) {
    part_pos(t / 9, t % 9, k)
}

/// `v` with cell (r, c) replaced by `cell`.
pub open spec fn with_cell(v: CandView, r: int, c: int, cell: Seq<bool>) -> CandView {
    v.update(r, v[r].update(c, cell))
}

/// The candidate set that holds bit `b` alone.
pub open spec fn single_cell(b: int) -> Seq<bool> {
    Seq::new(9, |j: int| j == b)
}

/// The members (by index, ascending) among the first `n` of partition `t`
/// whose candidate set holds bit `b`.
pub open spec fn admitting(v: CandView, t: int, b: int, n: int) -> Seq<int>
    decreases n,
{
    if n <= 0 {
        seq![]
    } else {
        let p = part_at(t, n - 1);
        if v[p.0][p.1][b] {
            admitting(v, t, b, n - 1).push(n - 1)
        } else {
            admitting(v, t, b, n - 1)
        }
    }
}

/// The first family other than `f`, in the order row, column, box, that
/// has one partition holding p, q and s.
pub open spec fn pointing_family(f: int, p: (int, int), q: (int, int), s: (int, int)) -> Option<int> {
    if f != 0 && same_part(0, p.0, p.1, q.0, q.1) && same_part(0, p.0, p.1, s.0, s.1) {
        Some(0)
    } else if f != 1 && same_part(1, p.0, p.1, q.0, q.1) && same_part(1, p.0, p.1, s.0, s.1) {
        Some(1)
    } else if f != 2 && same_part(2, p.0, p.1, q.0, q.1) && same_part(2, p.0, p.1, s.0, s.1) {
        Some(2)
    } else {
        None
    }
}

/// `v` with bit `b` cleared in the partition of family `g` that holds p0,
/// except at p0, p1 and p2.
pub open spec fn clear_outside(
    v: CandView,
    g: int,
    p0: (int, int),
    p1: (int, int),
    p2: (int, int),
    b: int,
) -> CandView {
    view_of(
        |r: int, c: int, x: int|
            if x == b && same_part(g, p0.0, p0.1, r, c) && (r, c) != p0 && (r, c) != p1 && (r, c) != p2 {
                false
            } else {
                v[r][c][x]
            },
    )
}

/// What the hidden-single rule does for bit `b` in partition `t`:
/// - one member admits `b`: that member holds `b` alone;
/// - two or three members admit `b`, and one partition of another family
///   holds them all: `b` is cleared in the rest of that partition;
/// - otherwise nothing changes.
pub open spec fn check_position_step(v: CandView, t: int, b: int) -> CandView {
    let a = admitting(v, t, b, 9);
    if a.len() == 1 {
        let p = part_at(t, a[0]);
        with_cell(v, p.0, p.1, single_cell(b))
    } else if a.len() == 2 || a.len() == 3 {
        let p0 = part_at(t, a[0]);
        let p1 = part_at(t, a[1]);
        let p2 = if a.len() == 3 { part_at(t, a[2]) } else { p1 };
        match pointing_family(t / 9, p0, p1, p2) {
            Some(g) => clear_outside(v, g, p0, p1, p2, b),
            None => v,
        }
    } else {
        v
    }
}

/// The hidden-single pass after its first `n` steps; step `n` handles
/// partition `n / 9` and bit `n % 9`.
pub open spec fn check_position_upto(v: CandView, n: int) -> CandView
    decreases n,
{
    if n <= 0 {
        v
    } else {
        check_position_step(check_position_upto(v, n - 1), (n - 1) / 9, (n - 1) % 9)
    }
}

/// The candidate sets after one full hidden-single pass.
pub open spec fn check_position_pass(v: CandView) -> CandView {
    check_position_upto(v, 243)
}

/// The members that admit a bit are members, ascending, and do admit it.
proof fn lemma_admitting(v: CandView, t: int, b: int, n: int)
    requires
        0 <= n <= 9,
    ensures
        admitting(v, t, b, n).len() <= n,
        forall|j: int|
            0 <= j < admitting(v, t, b, n).len() ==> 0 <= #[trigger] admitting(v, t, b, n)[j] < n && v[part_at(
                t,
                admitting(v, t, b, n)[j],
            ).0][part_at(t, admitting(v, t, b, n)[j]).1][b],
        forall|j1: int, j2: int|
            0 <= j1 < j2 < admitting(v, t, b, n).len() ==> #[trigger] admitting(v, t, b, n)[j1]
                < #[trigger] admitting(v, t, b, n)[j2],
        forall|k: int|
            0 <= k < n && #[trigger] v[part_at(t, k).0][part_at(t, k).1][b] ==> admitting(v, t, b, n).contains(k),
    decreases n,
{
    if n > 0 {
        lemma_admitting(v, t, b, n - 1);
        let a = admitting(v, t, b, n - 1);
        let p = part_at(t, n - 1);
        if v[p.0][p.1][b] {
            assert(a.push(n - 1)[a.len() as int] == n - 1);
            assert forall|k: int| 0 <= k < n && #[trigger] v[part_at(t, k).0][part_at(t, k).1][b] implies admitting(v, t, b, n).contains(k) by {
                if k < n - 1 {
                    let j = choose|j: int| 0 <= j < a.len() && a[j] == k;
                    assert(a.push(n - 1)[j] == k);
                }
            }
        }
    }
}

/// Whether `partition` holds `p`.
fn partition_contains(partition: &PositionPartition, p: &Position) -> (r: bool)
    ensures
        r == exists|k: int| 0 <= k < 9 && #[trigger] partition[k] == *p,
{
    let mut k: usize = 0;
    while k < SQUARE_OUTER_LEN
        invariant
            k <= 9,
            forall|j: int| 0 <= j < k ==> #[trigger] partition[j] != *p,
        decreases 9 - k,
    {
        if partition[k].0 == p.0 && partition[k].1 == p.1 {
            return true;
        }
        k += 1;
    }
    false
}

/// A partition of family `g` holds cell (r, c) exactly when (r, c) lies in
/// that partition.
proof fn lemma_contains_same_part(partition: PositionPartition, g: int, r0: int, c0: int, r: int, c: int)
    requires
        0 <= g < 3,
        in_grid(r0, c0),
        in_grid(r, c),
        forall|k: int| 0 <= k < 9 ==> pos_is(#[trigger] partition[k], part_pos(g, part_index(g, r0, c0), k)),
    ensures
        (exists|k: int| 0 <= k < 9 && #[trigger] partition[k] == (r as usize, c as usize)) == same_part(
            g,
            r0,
            c0,
            r,
            c,
        ),
{
    lemma_pos_index(g, r, c);
    lemma_pos_index(g, r0, c0);
    if same_part(g, r0, c0, r, c) {
        let k = pos_index(g, r, c);
        assert(partition[k] == (r as usize, c as usize));
    }
    if exists|k: int| 0 <= k < 9 && #[trigger] partition[k] == (r as usize, c as usize) {
        let k = choose|k: int| 0 <= k < 9 && #[trigger] partition[k] == (r as usize, c as usize);
        lemma_part_pos(g, part_index(g, r0, c0), k);
    }
}

impl CandidateMatrix {
    /// Clears bit `value_id` in every member of `partition` (the partition
    /// of family `g` that holds p0) other than p0, p1 and p2.
    fn clear_except(
        &mut self,
        partition: &PositionPartition,
        value_id: usize,
        p0: &Position,
        p1: &Position,
        p2: &Position,
        Ghost(g): Ghost<int>,
    )
        requires
            0 <= g < 3,
            value_id < 9,
            in_grid(p0.0 as int, p0.1 as int),
            forall|k: int|
                0 <= k < 9 ==> pos_is(#[trigger] partition[k], part_pos(g, part_index(g, p0.0 as int, p0.1 as int), k)),
        ensures
            final(self)@ == clear_outside(
                old(self)@,
                g,
                (p0.0 as int, p0.1 as int),
                (p1.0 as int, p1.1 as int),
                (p2.0 as int, p2.1 as int),
                value_id as int,
            ),
    {
        let ghost v = self@;
        let ghost q0 = (p0.0 as int, p0.1 as int);
        let ghost q1 = (p1.0 as int, p1.1 as int);
        let ghost q2 = (p2.0 as int, p2.1 as int);
        let ghost pi = part_index(g, q0.0, q0.1);
        proof {
            assert forall|r: int, c: int, x: int| in_grid(r, c) && 0 <= x < 9 implies #[trigger] self.can_matrix[r][c].can[x]
                == v[r][c][x] by {
                assert(v[r][c][x] == self.can_matrix[r][c].can[x]);
            }
        }
        let mut k: usize = 0;
        while k < SQUARE_OUTER_LEN
            invariant
                k <= 9,
                0 <= g < 3,
                value_id < 9,
                in_grid(q0.0, q0.1),
                q0 == (p0.0 as int, p0.1 as int),
                q1 == (p1.0 as int, p1.1 as int),
                q2 == (p2.0 as int, p2.1 as int),
                pi == part_index(g, q0.0, q0.1),
                forall|j: int| 0 <= j < 9 ==> pos_is(#[trigger] partition[j], part_pos(g, pi, j)),
                forall|r: int, c: int, x: int|
                    in_grid(r, c) && 0 <= x < 9 ==> #[trigger] self.can_matrix[r][c].can[x] == if x == value_id
                        && same_part(g, q0.0, q0.1, r, c) && pos_index(g, r, c) < k && (r, c) != q0 && (r, c)
                        != q1 && (r, c) != q2 {
                        false
                    } else {
                        v[r][c][x]
                    },
            decreases 9 - k,
        {
            let pp = partition[k];
            proof {
                lemma_part_pos(g, pi, k as int);
                assert forall|r: int, c: int| in_grid(r, c) && same_part(g, q0.0, q0.1, r, c) && pos_index(g, r, c) == k
                    implies r == pp.0 && c == pp.1 by {
                    lemma_pos_index(g, r, c);
                }
            }
            if !(pp.0 == p0.0 && pp.1 == p0.1) && !(pp.0 == p1.0 && pp.1 == p1.1) && !(pp.0 == p2.0 && pp.1
                == p2.1) {
                self.can_matrix[pp.0][pp.1].can[value_id] = false;
            }
            k += 1;
        }
        proof {
            assert forall|r: int, c: int, x: int| in_grid(r, c) && 0 <= x < 9 implies #[trigger] self@[r][c][x]
                == clear_outside(v, g, q0, q1, q2, value_id as int)[r][c][x] by {
                assert(self@[r][c][x] == self.can_matrix[r][c].can[x]);
                lemma_pos_index(g, r, c);
            }
            assert(self@ =~~= clear_outside(v, g, q0, q1, q2, value_id as int));
        }
    }

    /// One step of the hidden-single pass: bit `value_id` in `partition`,
    /// which is partition `t` of the flat numbering.
    fn check_position_value(
        &mut self,
        rulers: &RulerContainer,
        ruler_id: usize,
        partition: &PositionPartition,
        value_id: usize,
        Ghost(t): Ghost<int>,
    )
        requires
            0 <= t < 27,
            ruler_id == t / 9,
            value_id < 9,
            forall|k: int| 0 <= k < 9 ==> pos_is(#[trigger] partition[k], part_at(t, k)),
        ensures
            final(self)@ == check_position_step(old(self)@, t, value_id as int),
    {
        let ghost v = self@;
        let ghost b = value_id as int;
        let mut count: usize = 0;
        let mut pos: [Position; RULER_COUNT] = [(0, 0); RULER_COUNT];
        let mut k: usize = 0;
        while k < SQUARE_OUTER_LEN
            invariant
                k <= 9,
                0 <= t < 27,
                value_id < 9,
                b == value_id,
                v == self@,
                forall|j: int| 0 <= j < 9 ==> pos_is(#[trigger] partition[j], part_at(t, j)),
                count == admitting(v, t, b, k as int).len(),
                forall|j: int|
                    0 <= j < count && j < 3 ==> pos_is(#[trigger] pos[j], part_at(t, admitting(v, t, b, k as int)[j])),
            decreases 9 - k,
        {
            let (row, col) = partition[k];
            proof {
                lemma_admitting(v, t, b, k as int);
                lemma_part_pos(t / 9, t % 9, k as int);
                assert(v[row as int][col as int][b] == self.can_matrix[row as int][col as int].can[b]);
                assert(admitting(v, t, b, k + 1) == if v[row as int][col as int][b] {
                    admitting(v, t, b, k as int).push(k as int)
                } else {
                    admitting(v, t, b, k as int)
                });
            }
            if self.can_matrix[row][col].can[value_id] {
                count += 1;
                if count <= RULER_COUNT {
                    pos[count - 1] = (row, col);
                }
            }
            k += 1;
        }
        let ghost a = admitting(v, t, b, 9);
        proof {
            lemma_admitting(v, t, b, 9);
            assert forall|j: int| 0 <= j < count && j < 3 implies in_grid(pos[j].0 as int, pos[j].1 as int) by {
                lemma_part_pos(t / 9, t % 9, a[j]);
            }
        }
        if count == 1 {
            let (row, col) = pos[0];
            self.can_matrix[row][col] = Candidate::new_none();
            self.can_matrix[row][col].can[value_id] = true;
            proof {
                assert(self@ =~~= with_cell(v, row as int, col as int, single_cell(b)));
            }
        } else if count == 2 || count == 3 {
            let p2 = if count == 3 {
                pos[2]
            } else {
                pos[1]
            };
            let ghost q0 = (pos[0].0 as int, pos[0].1 as int);
            let ghost q1 = (pos[1].0 as int, pos[1].1 as int);
            let ghost q2 = (p2.0 as int, p2.1 as int);
            let partition_map = get_sudoku_ruler_partition_map(rulers, &pos[0]);
            let mut g: usize = 0;
            while g < RULER_COUNT
                invariant
                    g <= 3,
                    v == self@,
                    v == old(self)@,
                    value_id < 9,
                    b == value_id,
                    a == admitting(v, t, b, 9),
                    count == a.len(),
                    count == 2 || count == 3,
                    q0 == part_at(t, a[0]),
                    q1 == part_at(t, a[1]),
                    q2 == if count == 3 { part_at(t, a[2]) } else { q1 },
                    0 <= t < 27,
                    ruler_id == t / 9,
                    in_grid(q0.0, q0.1),
                    in_grid(q1.0, q1.1),
                    in_grid(q2.0, q2.1),
                    q0 == (pos[0].0 as int, pos[0].1 as int),
                    q1 == (pos[1].0 as int, pos[1].1 as int),
                    q2 == (p2.0 as int, p2.1 as int),
                    forall|f: int, k: int|
                        0 <= f < 3 && 0 <= k < 9 ==> pos_is(#[trigger] partition_map[f][k], part_pos(f, part_index(f, q0.0, q0.1), k)),
                    forall|f: int|
                        0 <= f < g ==> !(f != t / 9 && #[trigger] same_part(f, q0.0, q0.1, q1.0, q1.1) && same_part(f, q0.0, q0.1, q2.0, q2.1)),
                decreases 3 - g,
            {
                proof {
                    lemma_contains_same_part(partition_map[g as int], g as int, q0.0, q0.1, q1.0, q1.1);
                    lemma_contains_same_part(partition_map[g as int], g as int, q0.0, q0.1, q2.0, q2.1);
                }
                if g != ruler_id && partition_contains(&partition_map[g], &pos[1]) && partition_contains(
                    &partition_map[g],
                    &p2,
                ) {
                    self.clear_except(&partition_map[g], value_id, &pos[0], &pos[1], &p2, Ghost(g as int));
                    proof {
                        assert(pointing_family(t / 9, q0, q1, q2) == Some(g as int));
                    }
                    return;
                }
                g += 1;
            }
            proof {
                assert(pointing_family(t / 9, q0, q1, q2) is None);
            }
        }
    }
}

/// A hidden-single step only clears bits.
proof fn lemma_check_position_step_narrows(v: CandView, t: int, b: int)
    requires
        shaped(v),
        0 <= t < 27,
        0 <= b < 9,
    ensures
        narrower(check_position_step(v, t, b), v),
        shaped(check_position_step(v, t, b)),
{
    let a = admitting(v, t, b, 9);
    lemma_admitting(v, t, b, 9);
    if a.len() == 1 {
        let p = part_at(t, a[0]);
        lemma_part_pos(t / 9, t % 9, a[0]);
        let w = with_cell(v, p.0, p.1, single_cell(b));
        assert forall|r: int, c: int, x: int| in_grid(r, c) && 0 <= x < 9 && #[trigger] w[r][c][x] implies v[r][c][x] by {
            if r == p.0 && c == p.1 {
                assert(x == b);
            }
        }
    }
}

impl CandidateMatrix {
    /// Hidden singles and pointing pairs and triples. For every partition
    /// (rows, then columns, then boxes) and every value, in turn, on the
    /// sets as the earlier steps left them:
    /// - a value that only one member admits is forced on that member;
    /// - a value that two or three members admit, all in one partition of
    ///   another family, is cleared in the rest of that partition.
    pub fn evolution_by_check_position(&mut self)
        ensures
            final(self)@ == check_position_pass(old(self)@),
            narrower(final(self)@, old(self)@),
    {
        let rulers = init();
        let parts = each_sudoku_partition(&rulers);
        let mut t: usize = 0;
        while t < 27
            invariant
                t <= 27,
                parts@.len() == 27,
                forall|t: int| 0 <= t < 27 ==> (#[trigger] parts@[t]).0 == t / 9,
                forall|t: int, k: int|
                    0 <= t < 27 && 0 <= k < 9 ==> pos_is(#[trigger] parts@[t].1[k], part_pos(t / 9, t % 9, k)),
                self@ == check_position_upto(old(self)@, 9 * t),
                narrower(self@, old(self)@),
            decreases 27 - t,
        {
            let (ruler_id, partition) = parts[t];
            let mut value_id: usize = 0;
            while value_id < SQUARE_OUTER_LEN
                invariant
                    t < 27,
                    value_id <= 9,
                    ruler_id == t / 9,
                    forall|k: int| 0 <= k < 9 ==> pos_is(#[trigger] partition[k], part_at(t as int, k)),
                    self@ == check_position_upto(old(self)@, 9 * t + value_id),
                    narrower(self@, old(self)@),
                    shaped(self@),
                decreases 9 - value_id,
            {
                let ghost pre = self@;
                proof {
                    assert((9 * t + value_id) / 9 == t);
                    assert((9 * t + value_id) % 9 == value_id);
                    lemma_check_position_step_narrows(pre, t as int, value_id as int);
                }
                self.check_position_value(&rulers, ruler_id, &partition, value_id, Ghost(t as int));
                value_id += 1;
            }
            t += 1;
        }
    }
}

/// When exactly one member `k` of partition `t` admits bit `b`, the
/// hidden-single step for `t` and `b` leaves that member with `b` alone.
pub proof fn lemma_hidden_single(v: CandView, t: int, b: int, k: int)
    requires
        shaped(v),
        0 <= t < 27,
        0 <= b < 9,
        0 <= k < 9,
        v[part_at(t, k).0][part_at(t, k).1][b],
        forall|j: int| 0 <= j < 9 && j != k ==> !#[trigger] v[part_at(t, j).0][part_at(t, j).1][b],
    ensures
        check_position_step(v, t, b)[part_at(t, k).0][part_at(t, k).1] == single_cell(b),
{
    let a = admitting(v, t, b, 9);
    lemma_admitting(v, t, b, 9);
    assert(a.contains(k));
    assert forall|j: int| 0 <= j < a.len() implies a[j] == k by {
        let p = part_at(t, a[j]);
        assert(v[p.0][p.1][b]);
    }
    if a.len() > 1 {
        assert(a[0] < a[1]);
    }
    assert(a.len() == 1);
    assert(a[0] == k);
    lemma_part_pos(t / 9, t % 9, k);
}

/// A hidden-single step keeps every solution that the sets allow.
proof fn lemma_check_position_step_sound(v: CandView, g: SudokuMatrixValue, t: int, b: int)
    requires
        shaped(v),
        rule_valid(g),
        admits(v, g),
        0 <= t < 27,
        0 <= b < 9,
    ensures
        admits(check_position_step(v, t, b), g),
{
    let a = admitting(v, t, b, 9);
    lemma_admitting(v, t, b, 9);
    lemma_partition_holds_all(g, t, b + 1);
    let k = choose|k: int| 0 <= k < 9 && #[trigger] g.at(part_at(t, k).0, part_at(t, k).1) == b + 1;
    let pk = part_at(t, k);
    lemma_part_pos(t / 9, t % 9, k);
    assert(v[pk.0][pk.1][g.at(pk.0, pk.1) - 1]);
    assert(a.contains(k));
    let j = choose|j: int| 0 <= j < a.len() && a[j] == k;
    let w = check_position_step(v, t, b);
    if a.len() == 1 {
        assert(j == 0);
        assert forall|r: int, c: int| in_grid(r, c) implies #[trigger] w[r][c][g.at(r, c) - 1] by {
            assert(v[r][c][g.at(r, c) - 1]);
        }
    } else if a.len() == 2 || a.len() == 3 {
        let p0 = part_at(t, a[0]);
        let p1 = part_at(t, a[1]);
        let p2 = if a.len() == 3 { part_at(t, a[2]) } else { p1 };
        if let Some(gf) = pointing_family(t / 9, p0, p1, p2) {
            assert(pk == p0 || pk == p1 || pk == p2);
            assert(same_part(gf, p0.0, p0.1, pk.0, pk.1));
            assert forall|r: int, c: int| in_grid(r, c) implies #[trigger] w[r][c][g.at(r, c) - 1] by {
                assert(v[r][c][g.at(r, c) - 1]);
                if g.at(r, c) - 1 == b && same_part(gf, p0.0, p0.1, r, c) && (r, c) != p0 && (r, c) != p1 && (r, c) != p2 {
                    assert(is_peer(r, c, pk.0, pk.1));
                    assert(g.at(pk.0, pk.1) == b + 1);
                }
            }
        }
    }
}

/// The hidden-single pass, over its first `n` steps, only clears bits and
/// keeps every solution that the sets allow.
proof fn lemma_check_position_upto_sound(v: CandView, g: SudokuMatrixValue, n: int)
    requires
        shaped(v),
        rule_valid(g),
        admits(v, g),
        0 <= n <= 243,
    ensures
        shaped(check_position_upto(v, n)),
        narrower(check_position_upto(v, n), v),
        admits(check_position_upto(v, n), g),
    decreases n,
{
    if n > 0 {
        lemma_check_position_upto_sound(v, g, n - 1);
        let w = check_position_upto(v, n - 1);
        lemma_check_position_step_narrows(w, (n - 1) / 9, (n - 1) % 9);
        lemma_check_position_step_sound(w, g, (n - 1) / 9, (n - 1) % 9);
    }
}

/// Later steps of the hidden-single pass only clear bits.
proof fn lemma_check_position_upto_narrows(v: CandView, m: int, n: int)
    requires
        shaped(v),
        0 <= m <= n <= 243,
    ensures
        shaped(check_position_upto(v, n)),
        narrower(check_position_upto(v, n), check_position_upto(v, m)),
    decreases n - m,
{
    if n > m {
        lemma_check_position_upto_narrows(v, m, n - 1);
        let w = check_position_upto(v, n - 1);
        lemma_shape_upto(v, n - 1);
        lemma_check_position_step_narrows(w, (n - 1) / 9, (n - 1) % 9);
    } else {
        lemma_shape_upto(v, n);
    }
}

proof fn lemma_shape_upto(v: CandView, n: int)
    requires
        shaped(v),
        n <= 243,
    ensures
        shaped(check_position_upto(v, n)),
    decreases n,
{
    if n > 0 {
        lemma_shape_upto(v, n - 1);
        let w = check_position_upto(v, n - 1);
        lemma_check_position_step_narrows(w, (n - 1) / 9, (n - 1) % 9);
    }
}

/// Where the sets still allow some solution, a value that only one member
/// of a partition admits ends the hidden-single pass as that member's only
/// candidate.
pub proof fn lemma_hidden_single_pass(v: CandView, g: SudokuMatrixValue, t: int, b: int, k: int)
    requires
        shaped(v),
        rule_valid(g),
        admits(v, g),
        0 <= t < 27,
        0 <= b < 9,
        0 <= k < 9,
        v[part_at(t, k).0][part_at(t, k).1][b],
        forall|j: int| 0 <= j < 9 && j != k ==> !#[trigger] v[part_at(t, j).0][part_at(t, j).1][b],
    ensures
        check_position_pass(v)[part_at(t, k).0][part_at(t, k).1] == single_cell(b),
{
    let p = part_at(t, k);
    lemma_part_pos(t / 9, t % 9, k);
    lemma_partition_holds_all(g, t, b + 1);
    let kk = choose|kk: int| 0 <= kk < 9 && #[trigger] g.at(part_at(t, kk).0, part_at(t, kk).1) == b + 1;
    lemma_part_pos(t / 9, t % 9, kk);
    let pkk = part_at(t, kk);
    assert(v[pkk.0][pkk.1][g.at(pkk.0, pkk.1) - 1]);
    assert(kk == k);
    let n0 = 9 * t + b;
    assert(n0 / 9 == t && n0 % 9 == b);
    lemma_check_position_upto_sound(v, g, n0);
    let w = check_position_upto(v, n0);
    assert(w[p.0][p.1][g.at(p.0, p.1) - 1]);
    assert forall|j: int| 0 <= j < 9 && j != k implies !#[trigger] w[part_at(t, j).0][part_at(t, j).1][b] by {
        lemma_part_pos(t / 9, t % 9, j);
        assert(!v[part_at(t, j).0][part_at(t, j).1][b]);
    }
    lemma_hidden_single(w, t, b, k);
    assert(check_position_upto(v, n0 + 1) == check_position_step(w, t, b));
    lemma_check_position_upto_narrows(v, n0 + 1, 243);
    lemma_check_position_upto_sound(v, g, 243);
    let fin = check_position_pass(v);
    assert forall|x: int| 0 <= x < 9 implies #[trigger] fin[p.0][p.1][x] == single_cell(b)[x] by {
        if x == b {
            assert(fin[p.0][p.1][g.at(p.0, p.1) - 1]);
        } else if fin[p.0][p.1][x] {
            assert(check_position_upto(v, n0 + 1)[p.0][p.1][x]);
        }
    }
    assert(fin[p.0][p.1] =~= single_cell(b));
}

} // verus!
