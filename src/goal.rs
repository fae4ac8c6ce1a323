//! The solved layout: tiles laid along a clockwise spiral.
use vstd::prelude::*;
use crate::board::{hits, is_board, lemma_injective_covers};

verus! {

/// The spiral ring (0 = outermost) that holds cell (`r`, `c`) of a side-`s` board.
pub open spec fn ring(s: int, r: int, c: int) -> int {
    let a = if r < c { r } else { c };
    let b = if s - 1 - r < s - 1 - c { s - 1 - r } else { s - 1 - c };
    if a < b { a } else { b }
}

/// How many steps along the spiral, starting at the top-left corner and
/// heading right, it takes to reach cell (`r`, `c`).
pub open spec fn spiral_step(s: int, r: int, c: int) -> int {
    let k = ring(s, r, c);
    let n = s - 2 * k;
    let before = 4 * k * (s - k);
    if n == 1 {
        before
    } else if r == k {
        before + (c - k)
    } else if c == k + n - 1 {
        before + (n - 1) + (r - k)
    } else if r == k + n - 1 {
        before + 2 * (n - 1) + (k + n - 1 - c)
    } else {
        before + 3 * (n - 1) + (k + n - 1 - r)
    }
}

/// The tile of the solved side-`s` board at row-major index `i`: the spiral
/// numbers its cells 1, 2, ... and the last cell it reaches holds the blank.
pub open spec fn goal_tile(s: int, i: int) -> int {
    (spiral_step(s, i / s, i % s) + 1) % (s * s)
}

/// The solved board of side `s`, row by row.
pub open spec fn goal_board(s: int) -> Seq<usize> {
    Seq::new((s * s) as nat, |i: int| goal_tile(s, i) as usize)
}

/// How many cells lie outside ring `k`.
pub open spec fn cells_before(s: int, k: int) -> int {
    4 * k * (s - k)
}

/// A cell of ring `k` sits between the cells of the rings outside it and
/// those of the rings inside it.
proof fn lemma_step_in_ring(s: int, r: int, c: int)
    requires
        s >= 1,
        0 <= r < s,
        0 <= c < s,
    ensures
        0 <= ring(s, r, c),
        2 * ring(s, r, c) < s,
        s - 2 * ring(s, r, c) == 1 ==> spiral_step(s, r, c) == cells_before(s, ring(s, r, c)) && r == ring(s, r, c)
            && c == r,
        s - 2 * ring(s, r, c) >= 2 ==> cells_before(s, ring(s, r, c)) <= spiral_step(s, r, c) < cells_before(
            s,
            ring(s, r, c) + 1,
        ),
        0 <= spiral_step(s, r, c) < s * s,
{
    let k = ring(s, r, c);
    let n = s - 2 * k;
    assert(cells_before(s, k) + 4 * (n - 1) == cells_before(s, k + 1)) by (nonlinear_arith)
        requires n == s - 2 * k;
    assert(0 <= cells_before(s, k)) by (nonlinear_arith) requires 0 <= k, 2 * k < s;
    assert(n == 1 ==> cells_before(s, k) + 1 == s * s) by (nonlinear_arith) requires n == s - 2 * k;
    assert(n >= 2 ==> cells_before(s, k + 1) <= s * s) by (nonlinear_arith) requires n == s - 2 * k, 0 <= k;
}

/// Outer rings come before inner ones along the spiral.
proof fn lemma_rings_ordered(s: int, k1: int, k2: int)
    requires
        0 <= k1 < k2,
        2 * k2 < s,
    ensures
        cells_before(s, k1 + 1) <= cells_before(s, k2),
{
    assert(4 * (k1 + 1) * (s - (k1 + 1)) <= 4 * k2 * (s - k2)) by (nonlinear_arith)
        requires 0 <= k1 < k2, 2 * k2 < s;
}

/// No two cells are reached after the same number of steps.
proof fn lemma_step_injective(s: int, r1: int, c1: int, r2: int, c2: int)
    requires
        s >= 1,
        0 <= r1 < s,
        0 <= c1 < s,
        0 <= r2 < s,
        0 <= c2 < s,
        spiral_step(s, r1, c1) == spiral_step(s, r2, c2),
    ensures
        r1 == r2 && c1 == c2,
{
    lemma_step_in_ring(s, r1, c1);
    lemma_step_in_ring(s, r2, c2);
    let k1 = ring(s, r1, c1);
    let k2 = ring(s, r2, c2);
    if k1 < k2 {
        lemma_rings_ordered(s, k1, k2);
    } else if k2 < k1 {
        lemma_rings_ordered(s, k2, k1);
    }
    assert(k1 == k2);
}

/// The tile that follows step `t` of a spiral over `n` cells.
proof fn lemma_tile_of_step(t: int, n: int)
    requires
        0 <= t < n,
    ensures
        (t + 1) % n == if t + 1 == n { 0 } else { t + 1 },
{
    if t + 1 == n {
        vstd::arithmetic::div_mod::lemma_mod_self_0(n);
    } else {
        vstd::arithmetic::div_mod::lemma_small_mod((t + 1) as nat, n as nat);
    }
}

/// Some cell of the solved side-`s` board holds tile `v`.
pub open spec fn goal_has(s: int, v: int) -> bool {
    exists|i: int| 0 <= i < s * s && goal_tile(s, i) == v
}

/// The cells of the solved board hold each of `0..s*s` exactly once.
pub proof fn lemma_goal_tiles_permutation(s: int)
    requires
        s >= 1,
    ensures
        forall|i: int| 0 <= i < s * s ==> 0 <= #[trigger] goal_tile(s, i) < s * s,
        forall|i: int, j: int| 0 <= i < s * s && 0 <= j < s * s && i != j
            ==> #[trigger] goal_tile(s, i) != #[trigger] goal_tile(s, j),
        forall|v: int| 0 <= v < s * s ==> #[trigger] goal_has(s, v),
{
    let n = s * s;
    assert(n >= 1) by (nonlinear_arith) requires n == s * s, s >= 1;
    assert forall|i: int| 0 <= i < n implies 0 <= i / s < s && 0 <= i % s < s && 0 <= #[trigger] goal_tile(s, i) < n by {
        assert(0 <= i / s < s) by (nonlinear_arith) requires 0 <= i < s * s, s >= 1;
        lemma_step_in_ring(s, i / s, i % s);
    }
    assert forall|i: int, j: int| 0 <= i < n && 0 <= j < n && i != j
        implies #[trigger] goal_tile(s, i) != #[trigger] goal_tile(s, j) by {
        assert(goal_tile(s, i) < n && goal_tile(s, j) < n);
        let si = spiral_step(s, i / s, i % s);
        let sj = spiral_step(s, j / s, j % s);
        lemma_step_in_ring(s, i / s, i % s);
        lemma_step_in_ring(s, j / s, j % s);
        if goal_tile(s, i) == goal_tile(s, j) {
            lemma_tile_of_step(si, n);
            lemma_tile_of_step(sj, n);
            assert(si == sj);
            lemma_step_injective(s, i / s, i % s, j / s, j % s);
            vstd::arithmetic::div_mod::lemma_fundamental_div_mod(i, s);
            vstd::arithmetic::div_mod::lemma_fundamental_div_mod(j, s);
        }
    }
    let f = |i: int| goal_tile(s, i);
    assert forall|i: int, j: int| 0 <= i < n && 0 <= j < n && i != j implies #[trigger] f(i) != #[trigger] f(j) by {
        assert(goal_tile(s, i) != goal_tile(s, j));
    }
    lemma_injective_covers(f, n);
    assert forall|v: int| 0 <= v < n implies #[trigger] goal_has(s, v) by {
        assert(hits(f, n, v));
        let i = choose|i: int| 0 <= i < n && #[trigger] f(i) == v;
        assert(goal_tile(s, i) == v);
    }
}

/// The solved board holds each of `0..s*s` exactly once, laid along the spiral.
pub proof fn lemma_goal_is_board(s: int)
    requires
        s >= 1,
        s * s <= usize::MAX,
    ensures
        is_board(goal_board(s), s),
{
    let b = goal_board(s);
    lemma_goal_tiles_permutation(s);
    assert forall|i: int| 0 <= i < b.len() implies #[trigger] b[i] < b.len() by {
        assert(goal_tile(s, i) < s * s);
    }
    assert forall|i: int, j: int| 0 <= i < b.len() && 0 <= j < b.len() && i != j implies #[trigger] b[i] != #[trigger] b[j] by {
        assert(goal_tile(s, i) != goal_tile(s, j));
    }
    assert forall|v: int| 0 <= v < b.len() implies #[trigger] crate::board::has_tile(b, v) by {
        assert(goal_has(s, v));
        let i = choose|i: int| 0 <= i < s * s && goal_tile(s, i) == v;
        assert(b[i] == v);
    }
}

/// Cells (`r1`, `c1`) and (`r2`, `c2`) share a side.
pub open spec fn touching(r1: int, c1: int, r2: int, c2: int) -> bool {
    ||| (r1 == r2 && (c1 - c2 == 1 || c2 - c1 == 1))
    ||| (c1 == c2 && (r1 - r2 == 1 || r2 - r1 == 1))
}

/// The spiral's next cell after (`r`, `c`), unless that is its last cell.
proof fn lemma_spiral_next(s: int, r: int, c: int) -> (next: (int, int))
    requires
        s >= 1,
        0 <= r < s,
        0 <= c < s,
        spiral_step(s, r, c) + 1 < s * s,
    ensures
        0 <= next.0 < s,
        0 <= next.1 < s,
        spiral_step(s, next.0, next.1) == spiral_step(s, r, c) + 1,
        touching(r, c, next.0, next.1),
{
    lemma_step_in_ring(s, r, c);
    let k = ring(s, r, c);
    let n = s - 2 * k;
    assert(n == 2 ==> cells_before(s, k + 1) == s * s) by (nonlinear_arith)
        requires n == s - 2 * k;
    assert(cells_before(s, k) + 4 * (n - 1) == cells_before(s, k + 1)) by (nonlinear_arith)
        requires n == s - 2 * k;
    assert(n == 1 ==> cells_before(s, k) + 1 == s * s) by (nonlinear_arith)
        requires n == s - 2 * k;
    assert(k <= r <= k + n - 1 && k <= c <= k + n - 1);
    assert(r == k || c == k || r == k + n - 1 || c == k + n - 1);
    assert(n >= 2);
    if r == k && c < k + n - 1 {
        assert(ring(s, k, c + 1) == k);
        (k, c + 1)
    } else if c == k + n - 1 && r < k + n - 1 {
        assert(ring(s, r + 1, c) == k);
        (r + 1, c)
    } else if r == k + n - 1 && c > k {
        assert(ring(s, r, c - 1) == k);
        (r, c - 1)
    } else if c == k && r > k + 1 {
        assert(ring(s, r - 1, c) == k);
        (r - 1, c)
    } else {
        assert(r == k + 1 && c == k && n >= 3);
        lemma_step_in_ring(s, k + 1, k + 1);
        assert(ring(s, k + 1, k + 1) == k + 1);
        (k + 1, k + 1)
    }
}

/// On the solved board, the cell of each tile `t` other than the blank
/// shares a side with the cell of the tile that follows it along the spiral:
/// tile `t + 1`, or the blank after the last tile. Tile 1 sits in the
/// top-left cell, with tile 2 to its right.
pub proof fn lemma_goal_tiles_follow_spiral(s: int, i: int, j: int)
    requires
        s >= 2,
        0 <= i < s * s,
        0 <= j < s * s,
        goal_tile(s, i) != 0,
        goal_tile(s, j) == (goal_tile(s, i) + 1) % (s * s),
    ensures
        touching(i / s, i % s, j / s, j % s),
        goal_tile(s, 0) == 1,
        goal_tile(s, 1) == 2,
{
    let n = s * s;
    assert(n >= 4) by (nonlinear_arith) requires n == s * s, s >= 2;
    assert(0 <= i / s < s && 0 <= j / s < s) by (nonlinear_arith) requires 0 <= i < s * s, 0 <= j < s * s, s >= 1;
    let si = spiral_step(s, i / s, i % s);
    let sj = spiral_step(s, j / s, j % s);
    lemma_step_in_ring(s, i / s, i % s);
    lemma_step_in_ring(s, j / s, j % s);
    lemma_tile_of_step(si, n);
    lemma_tile_of_step(sj, n);
    assert(si + 1 < n);
    lemma_tile_of_step(si + 1, n);
    assert(sj == si + 1);
    let next = lemma_spiral_next(s, i / s, i % s);
    lemma_step_injective(s, next.0, next.1, j / s, j % s);
    vstd::arithmetic::div_mod::lemma_fundamental_div_mod_converse(0, s, 0, 0);
    vstd::arithmetic::div_mod::lemma_fundamental_div_mod_converse(1, s, 0, 1);
    lemma_step_in_ring(s, 0, 0);
    lemma_step_in_ring(s, 0, 1);
    lemma_tile_of_step(0, n);
    lemma_tile_of_step(1, n);
}

/// The solved board of side `s`: each cell gets the tile that its step
/// along the spiral gives it.
pub fn make_goal(s: usize) -> (r: Vec<usize>)
    requires
        s >= 3,
        s * s <= usize::MAX,
    ensures
        r@ == goal_board(s as int),
        is_board(r@, s as int),
{
    let ts: usize = s * s;
    let mut puzzle: Vec<usize> = Vec::new();
    let mut i: usize = 0;
    while i < ts
        invariant
            ts == s * s,
            s >= 3,
            i <= ts,
            puzzle@.len() == i,
            forall|j: int| 0 <= j < i ==> puzzle@[j] == goal_tile(s as int, j),
        decreases ts - i,
    {
        let r = i / s;
        let c = i % s;
        assert(r < s) by (nonlinear_arith) requires i < s * s, r == i / s, s > 0;
        let a = if r < c { r } else { c };
        let b = if s - 1 - r < s - 1 - c { s - 1 - r } else { s - 1 - c };
        let k = if a < b { a } else { b };
        assert(2 * k < s);
        let n = s - 2 * k;
        assert(4 * k <= s * s && 4 * k * (s - k) <= s * s) by (nonlinear_arith)
            requires 2 * k < s, s >= 3;
        let before = 4 * k * (s - k);
        assert(4 * k * (s - k) + 4 * (s - 2 * k) - 4 <= s * s) by (nonlinear_arith)
            requires 2 * k < s;
        assert(n == 1 ==> 4 * k * (s - k) + 1 == s * s) by (nonlinear_arith)
            requires n == s - 2 * k;
        let step = if n == 1 {
            before
        } else if r == k {
            before + (c - k)
        } else if c == k + n - 1 {
            before + (n - 1) + (r - k)
        } else if r == k + n - 1 {
            before + 2 * (n - 1) + (k + n - 1 - c)
        } else {
            before + 3 * (n - 1) + (k + n - 1 - r)
        };
        puzzle.push((step + 1) % ts);
        i = i + 1;
    }
    proof {
        lemma_goal_is_board(s as int);
        assert(puzzle@ =~= goal_board(s as int));
    }
    puzzle
}

} // verus!
