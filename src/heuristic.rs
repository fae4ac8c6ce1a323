//! The sum of Manhattan distances from each tile to its place on the goal board.
use vstd::prelude::*;
use crate::board::{adjacent, has_tile, is_board, is_move, is_path, lemma_swap_keeps_board, swapped, BLANK};

verus! {

/// `|x|` over the integers.
pub open spec fn abs(x: int) -> int {
    if x < 0 { -x } else { x }
}

/// Grid distance between cells `i` and `j` of a side-`s` board.
pub open spec fn manhattan(s: int, i: int, j: int) -> int {
    abs(i / s - j / s) + abs(i % s - j % s)
}

/// The cell of `goal` that holds tile `v`.
pub open spec fn tile_pos(goal: Seq<usize>, v: int) -> int {
    choose|j: int| 0 <= j < goal.len() && goal[j] == v
}

/// What the tile at cell `i` of `state` contributes: nothing for the blank.
pub open spec fn tile_cost(state: Seq<usize>, goal: Seq<usize>, s: int, i: int) -> int {
    if state[i] == BLANK {
        0
    } else {
        manhattan(s, i, tile_pos(goal, state[i] as int))
    }
}

/// The contributions of the first `k` cells of `state`.
pub open spec fn cost_upto(state: Seq<usize>, goal: Seq<usize>, s: int, k: int) -> int
    decreases k,
{
    if k <= 0 {
        0
    } else {
        cost_upto(state, goal, s, k - 1) + tile_cost(state, goal, s, k - 1)
    }
}

/// Sum over every non-blank tile of its distance to its cell on `goal`.
pub open spec fn manhattan_sum(state: Seq<usize>, goal: Seq<usize>, s: int) -> int {
    cost_upto(state, goal, s, state.len() as int)
}

/// On a board whose tiles are distinct, the cell found for a tile is the only one holding it.
pub proof fn lemma_tile_pos(goal: Seq<usize>, s: int, j: int)
    requires
        is_board(goal, s),
        0 <= j < goal.len(),
    ensures
        tile_pos(goal, goal[j] as int) == j,
{
    assert(has_tile(goal, goal[j] as int));
}

/// Every cost is non-negative.
pub proof fn lemma_cost_nonneg(state: Seq<usize>, goal: Seq<usize>, s: int, k: int)
    ensures
        cost_upto(state, goal, s, k) >= 0,
        k >= 1 ==> cost_upto(state, goal, s, k) >= cost_upto(state, goal, s, k - 1),
    decreases k,
{
    if k > 0 {
        lemma_cost_nonneg(state, goal, s, k - 1);
    }
}

/// A zero prefix sum means each tile of that prefix already sits on its goal cell.
pub proof fn lemma_zero_cost_prefix(state: Seq<usize>, goal: Seq<usize>, s: int, k: int)
    requires
        is_board(state, s),
        is_board(goal, s),
        0 <= k <= state.len(),
        cost_upto(state, goal, s, k) == 0,
    ensures
        forall|i: int| 0 <= i < k && state[i] != BLANK ==> goal[i] == state[i],
    decreases k,
{
    if k > 0 {
        lemma_cost_nonneg(state, goal, s, k - 1);
        lemma_zero_cost_prefix(state, goal, s, k - 1);
        let i = k - 1;
        if state[i] != BLANK {
            let v = state[i] as int;
            assert(has_tile(goal, v));
            let j = tile_pos(goal, v);
            assert(manhattan(s, i, j) == 0);
            assert(i / s == j / s && i % s == j % s);
            assert(i == s * (i / s) + i % s) by (nonlinear_arith) requires s > 0;
            assert(j == s * (j / s) + j % s) by (nonlinear_arith) requires s > 0;
            assert(i == j);
        }
    }
}

/// The distance sum is zero exactly on the goal itself.
pub proof fn lemma_zero_iff_goal(state: Seq<usize>, goal: Seq<usize>, s: int)
    requires
        is_board(state, s),
        is_board(goal, s),
    ensures
        (manhattan_sum(state, goal, s) == 0) <==> (state == goal),
{
    lemma_cost_nonneg(state, goal, s, state.len() as int);
    if state == goal {
        lemma_goal_costs_nothing(goal, s, goal.len() as int);
    }
    if manhattan_sum(state, goal, s) == 0 {
        lemma_zero_cost_prefix(state, goal, s, state.len() as int);
        assert forall|i: int| 0 <= i < state.len() implies goal[i] == state[i] by {
            if state[i] == BLANK {
                assert(has_tile(goal, 0));
                let k = choose|k: int| 0 <= k < goal.len() && goal[k] == 0;
                if k != i {
                    assert(state[k] != state[i]);
                    assert(goal[k] == state[k]);
                }
            }
        }
        assert(state =~= goal);
    }
}

/// Each prefix of the goal board, measured against itself, costs nothing.
proof fn lemma_goal_costs_nothing(goal: Seq<usize>, s: int, k: int)
    requires
        is_board(goal, s),
        0 <= k <= goal.len(),
    ensures
        cost_upto(goal, goal, s, k) == 0,
    decreases k,
{
    if k > 0 {
        lemma_goal_costs_nothing(goal, s, k - 1);
        lemma_tile_pos(goal, s, k - 1);
    }
}

/// Prefix sums of two boards that agree outside cells `p` and `q` differ by
/// what those two cells contribute.
proof fn lemma_cost_two_cells(a: Seq<usize>, b: Seq<usize>, goal: Seq<usize>, s: int, p: int, q: int, k: int)
    requires
        a.len() == b.len(),
        p != q,
        0 <= p < a.len(),
        0 <= q < a.len(),
        0 <= k <= a.len(),
        forall|i: int| 0 <= i < a.len() && i != p && i != q ==> a[i] == b[i],
    ensures
        cost_upto(b, goal, s, k) - cost_upto(a, goal, s, k) == (if p < k {
            tile_cost(b, goal, s, p) - tile_cost(a, goal, s, p)
        } else {
            0
        }) + (if q < k {
            tile_cost(b, goal, s, q) - tile_cost(a, goal, s, q)
        } else {
            0
        }),
    decreases k,
{
    if k > 0 {
        lemma_cost_two_cells(a, b, goal, s, p, q, k - 1);
        if k - 1 != p && k - 1 != q {
            assert(a[k - 1] == b[k - 1]);
            assert(tile_cost(a, goal, s, k - 1) == tile_cost(b, goal, s, k - 1));
        }
    }
}

/// One move changes the distance sum by at most one.
pub proof fn lemma_move_changes_cost_by_one(a: Seq<usize>, b: Seq<usize>, goal: Seq<usize>, s: int)
    requires
        is_board(a, s),
        is_board(goal, s),
        is_move(a, b, s),
    ensures
        manhattan_sum(a, goal, s) - 1 <= manhattan_sum(b, goal, s) <= manhattan_sum(a, goal, s) + 1,
{
    let (p, q) = choose|p: int, q: int|
        adjacent(s, p, q) && a.len() == s * s && a[p] == BLANK && b == #[trigger] swapped(a, p, q);
    lemma_cost_two_cells(a, b, goal, s, p, q, a.len() as int);
    let t = a[q];
    assert(t != BLANK) by { assert(a[p] != a[q]); }
    let j = tile_pos(goal, t as int);
    assert(has_tile(goal, t as int));
    vstd::arithmetic::div_mod::lemma_fundamental_div_mod(p, s);
    let x = p / s;
    let y = p % s;
    assert(p == x * s + y) by (nonlinear_arith) requires p == s * x + y;
    if q == p - 1 && y > 0 {
        vstd::arithmetic::div_mod::lemma_fundamental_div_mod_converse(q, s, x, y - 1);
    } else if q == p + 1 && y < s - 1 {
        vstd::arithmetic::div_mod::lemma_fundamental_div_mod_converse(q, s, x, y + 1);
    } else if q == p - s {
        assert(q == (x - 1) * s + y) by (nonlinear_arith) requires p == s * x + y, q == p - s;
        vstd::arithmetic::div_mod::lemma_fundamental_div_mod_converse(q, s, x - 1, y);
    } else {
        assert(q == (x + 1) * s + y) by (nonlinear_arith) requires p == s * x + y, q == p + s;
        vstd::arithmetic::div_mod::lemma_fundamental_div_mod_converse(q, s, x + 1, y);
    }
    assert(tile_cost(b, goal, s, p) == manhattan(s, p, j));
    assert(tile_cost(a, goal, s, q) == manhattan(s, q, j));
}

/// Along a path the distance sum falls by at most one per move.
pub proof fn lemma_cost_along_path(path: Seq<Seq<usize>>, goal: Seq<usize>, s: int, k: int)
    requires
        is_path(path, s),
        is_board(path[0], s),
        is_board(goal, s),
        0 <= k < path.len(),
    ensures
        is_board(path[k], s),
        manhattan_sum(path[0], goal, s) <= manhattan_sum(path[k], goal, s) + k,
    decreases k,
{
    if k > 0 {
        lemma_cost_along_path(path, goal, s, k - 1);
        assert(is_move(path[k - 1], path[k], s));
        lemma_move_changes_cost_by_one(path[k - 1], path[k], goal, s);
        let (p, q) = choose|p: int, q: int|
            adjacent(s, p, q) && path[k - 1].len() == s * s && path[k - 1][p] == BLANK && path[k] == #[trigger] swapped(path[k - 1], p, q);
        lemma_swap_keeps_board(path[k - 1], s, p, q);
    }
}

/// The cell of `goal` holding tile `v`.
pub(crate) fn find_tile(goal: &Vec<usize>, v: usize, Ghost(s): Ghost<int>) -> (j: usize)
    requires
        is_board(goal@, s),
        v < goal@.len(),
    ensures
        j == tile_pos(goal@, v as int),
        j < goal@.len(),
        goal@[j as int] == v,
{
    assert(has_tile(goal@, v as int));
    let mut j: usize = 0;
    while j < goal.len()
        invariant
            is_board(goal@, s),
            v < goal@.len(),
            j <= goal@.len(),
            forall|k: int| 0 <= k < j ==> goal@[k] != v,
        decreases goal@.len() - j,
    {
        if goal[j] == v {
            proof { lemma_tile_pos(goal@, s, j as int); }
            return j;
        }
        j = j + 1;
    }
    proof {
        let k = choose|k: int| 0 <= k < goal@.len() && goal@[k] == v;
        assert(goal@[k] == v);
    }
    0
}

/// `|a - b|` of two machine integers.
fn abs_diff(a: usize, b: usize) -> (r: usize)
    ensures
        r == abs(a - b),
{
    if a > b { a - b } else { b - a }
}

/// The sum over every non-blank tile of `state` of its row and column
/// distance to the cell that holds it on `goal`.
pub fn manhattan_distance(state: &Vec<usize>, goal: &Vec<usize>, size: usize) -> (h: u128)
    requires
        is_board(state@, size as int),
        is_board(goal@, size as int),
    ensures
        h == manhattan_sum(state@, goal@, size as int),
        h <= state@.len() * (2 * size),
        h <= 0x1_0000_0000_0000_0000 * 0x2_0000_0000,
{
    let ghost s = size as int;
    let n = state.len();
    assert(size <= 0x1_0000_0000) by (nonlinear_arith) requires size * size == n, n <= usize::MAX;
    let mut sum: u128 = 0;
    let mut i: usize = 0;
    while i < n
        invariant
            n == state@.len(),
            is_board(state@, s),
            is_board(goal@, s),
            s == size,
            size <= 0x1_0000_0000,
            i <= n,
            sum == cost_upto(state@, goal@, s, i as int),
            sum <= i * (2 * s),
        decreases n - i,
    {
        let v = state[i];
        if v != BLANK {
            let j = find_tile(goal, v, Ghost(s));
            assert(i / size < size && j / size < size) by (nonlinear_arith)
                requires i < size * size, j < size * size, size > 0;
            let dr = abs_diff(i / size, j / size);
            let dc = abs_diff(i % size, j % size);
            assert(dr <= size && dc <= size && size <= 0x1_0000_0000);
            let d: u128 = dr as u128 + dc as u128;
            assert(sum + d <= (i + 1) * (2 * s)) by (nonlinear_arith)
                requires sum <= i * (2 * s), d <= 2 * s;
            assert((i + 1) * (2 * s) <= 0x1_0000_0000_0000_0000 * 0x2_0000_0000) by (nonlinear_arith)
                requires i < n, n <= usize::MAX, s <= 0x1_0000_0000, s >= 0;
            sum = sum + d;
        } else {
            assert(sum <= (i + 1) * (2 * s)) by (nonlinear_arith)
                requires sum <= i * (2 * s), s >= 0;
        }
        i = i + 1;
    }
    assert(n * (2 * s) <= 0x1_0000_0000_0000_0000 * 0x2_0000_0000) by (nonlinear_arith)
        requires n <= usize::MAX, s <= 0x1_0000_0000, s >= 0;
    sum
}

} // verus!
