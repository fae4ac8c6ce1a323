//! The solvability class of a board: the parity of its inversions together
//! with the parity of its blank's row and column. Moves keep it; exchanging
//! two tiles changes it.
use vstd::prelude::*;
use crate::board::{adjacent, is_board, is_move, is_path, lemma_swap_keeps_board, reachable, swapped, BLANK};
use crate::heuristic::{lemma_tile_pos, tile_pos};

verus! {

/// 1 when `x > y`, else 0.
pub open spec fn gt(x: usize, y: usize) -> int {
    if x > y { 1 } else { 0 }
}

/// How many cells from `j` on hold a value below that of cell `i`.
pub open spec fn row_count(b: Seq<usize>, i: int, j: int) -> int
    decreases b.len() - j,
{
    if 0 <= j < b.len() { gt(b[i], b[j]) + row_count(b, i, j + 1) } else { 0 }
}

/// Inversions of `b` whose first cell is at `i` or later.
pub open spec fn inversions_from(b: Seq<usize>, i: int) -> int
    decreases b.len() - i,
{
    if 0 <= i < b.len() { row_count(b, i, i + 1) + inversions_from(b, i + 1) } else { 0 }
}

/// Pairs of cells whose values stand in decreasing order.
pub open spec fn inversions(b: Seq<usize>) -> int {
    inversions_from(b, 0)
}

/// The solvability class of a side-`s` board: 0 or 1.
pub open spec fn parity_class(b: Seq<usize>, s: int) -> int {
    let z = tile_pos(b, BLANK as int);
    (inversions(b) + z / s + z % s) % 2
}

/// Counting from `j` on gives the same for two rows that agree there.
proof fn lemma_row_same(b: Seq<usize>, k: int, c: Seq<usize>, l: int, j: int)
    requires
        b.len() == c.len(),
        0 <= k < b.len(),
        0 <= l < c.len(),
        b[k] == c[l],
        0 <= j,
        forall|m: int| j <= m < b.len() ==> b[m] == c[m],
    ensures
        row_count(b, k, j) == row_count(c, l, j),
    decreases b.len() - j,
{
    if j < b.len() {
        lemma_row_same(b, k, c, l, j + 1);
    }
}

/// A row that does not start at one of two neighbouring cells counts the
/// same after they are exchanged.
proof fn lemma_row_past_swap(b: Seq<usize>, i: int, k: int, j: int)
    requires
        0 <= i,
        i + 1 < b.len(),
        0 <= k < b.len(),
        k != i,
        k != i + 1,
        0 <= j <= i,
    ensures
        row_count(swapped(b, i, i + 1), k, j) == row_count(b, k, j),
    decreases i - j,
{
    let c = swapped(b, i, i + 1);
    if j < i {
        lemma_row_past_swap(b, i, k, j + 1);
    } else {
        lemma_row_same(b, k, c, k, i + 2);
        assert(row_count(c, k, i + 1) == gt(c[k], c[i + 1]) + row_count(c, k, i + 2));
        assert(row_count(c, k, i) == gt(c[k], c[i]) + row_count(c, k, i + 1));
        assert(row_count(b, k, i + 1) == gt(b[k], b[i + 1]) + row_count(b, k, i + 2));
        assert(row_count(b, k, i) == gt(b[k], b[i]) + row_count(b, k, i + 1));
    }
}

/// Sums of rows from `m` on agree when every row counted agrees.
proof fn lemma_inversions_rows(b: Seq<usize>, c: Seq<usize>, m: int, hi: int)
    requires
        b.len() == c.len(),
        0 <= m <= hi <= b.len(),
        forall|k: int| m <= k < hi ==> #[trigger] row_count(b, k, k + 1) == row_count(c, k, k + 1),
    ensures
        inversions_from(b, m) - inversions_from(b, hi) == inversions_from(c, m) - inversions_from(c, hi),
    decreases hi - m,
{
    if m < hi {
        lemma_inversions_rows(b, c, m + 1, hi);
    }
}

/// Exchanging two neighbouring cells with different values adds or removes
/// exactly one inversion.
pub proof fn lemma_adjacent_swap(b: Seq<usize>, i: int)
    requires
        0 <= i,
        i + 1 < b.len(),
        b[i] != b[i + 1],
    ensures
        inversions(swapped(b, i, i + 1)) == inversions(b) + gt(b[i + 1], b[i]) - gt(b[i], b[i + 1]),
{
    let c = swapped(b, i, i + 1);
    let n = b.len() as int;
    assert forall|k: int| 0 <= k < i implies #[trigger] row_count(b, k, k + 1) == row_count(c, k, k + 1) by {
        lemma_row_past_swap(b, i, k, k + 1);
    }
    assert forall|k: int| i + 2 <= k < n implies #[trigger] row_count(b, k, k + 1) == row_count(c, k, k + 1) by {
        lemma_row_same(b, k, c, k, k + 1);
    }
    lemma_inversions_rows(b, c, 0, i);
    lemma_inversions_rows(b, c, i + 2, n);
    assert(inversions_from(b, n) == 0 && inversions_from(c, n) == 0);
    lemma_row_same(c, i, b, i + 1, i + 2);
    lemma_row_same(c, i + 1, b, i, i + 2);
    assert(inversions_from(c, i + 1) == row_count(c, i + 1, i + 2) + inversions_from(c, i + 2));
    assert(inversions_from(c, i) == row_count(c, i, i + 1) + inversions_from(c, i + 1));
    assert(inversions_from(b, i + 1) == row_count(b, i + 1, i + 2) + inversions_from(b, i + 2));
    assert(inversions_from(b, i) == row_count(b, i, i + 1) + inversions_from(b, i + 1));
    assert(row_count(c, i, i + 1) == gt(c[i], c[i + 1]) + row_count(c, i, i + 2));
    assert(row_count(b, i, i + 1) == gt(b[i], b[i + 1]) + row_count(b, i, i + 2));
}

/// Exchanging any two cells of a board changes the parity of its inversions.
pub proof fn lemma_swap_flips_inversions(b: Seq<usize>, s: int, p: int, q: int)
    requires
        is_board(b, s),
        0 <= p < q < b.len(),
    ensures
        inversions(swapped(b, p, q)) % 2 != inversions(b) % 2,
    decreases q - p,
{
    if q == p + 1 {
        assert(b[p] != b[p + 1]);
        lemma_adjacent_swap(b, p);
    } else {
        let c = swapped(b, q - 1, q);
        assert(b[q - 1] != b[q]);
        lemma_adjacent_swap(b, q - 1);
        lemma_swap_keeps_board(b, s, q - 1, q);
        let d = swapped(c, p, q - 1);
        lemma_swap_flips_inversions(c, s, p, q - 1);
        lemma_swap_keeps_board(c, s, p, q - 1);
        assert(d[q - 1] != d[q]);
        lemma_adjacent_swap(d, q - 1);
        assert(swapped(d, q - 1, q) =~= swapped(b, p, q));
    }
}

/// A move keeps the solvability class.
pub proof fn lemma_move_keeps_class(a: Seq<usize>, b: Seq<usize>, s: int)
    requires
        is_board(a, s),
        is_move(a, b, s),
    ensures
        is_board(b, s),
        parity_class(b, s) == parity_class(a, s),
{
    let (p, q) = choose|p: int, q: int|
        adjacent(s, p, q) && a.len() == s * s && a[p] == BLANK && b == #[trigger] swapped(a, p, q);
    lemma_swap_keeps_board(a, s, p, q);
    if p < q {
        lemma_swap_flips_inversions(a, s, p, q);
    } else {
        lemma_swap_flips_inversions(a, s, q, p);
        assert(swapped(a, q, p) =~= b);
    }
    lemma_tile_pos(a, s, p);
    lemma_tile_pos(b, s, q);
    assert(b[q] == BLANK);
    vstd::arithmetic::div_mod::lemma_fundamental_div_mod(p, s);
    let x = p / s;
    let y = p % s;
    assert(p == x * s + y) by (nonlinear_arith) requires p == s * x + y;
    if q == p - 1 && y > 0 {
        vstd::arithmetic::div_mod::lemma_fundamental_div_mod_converse(q, s, x, y - 1);
    } else if q == p + 1 && y < s - 1 {
        vstd::arithmetic::div_mod::lemma_fundamental_div_mod_converse(q, s, x, y + 1);
    } else if q == p - s {
        assert(q == (x - 1) * s + y) by (nonlinear_arith) requires p == s * x + y, q == p - s;
        vstd::arithmetic::div_mod::lemma_fundamental_div_mod_converse(q, s, x - 1, y);
    } else {
        assert(q == (x + 1) * s + y) by (nonlinear_arith) requires p == s * x + y, q == p + s;
        vstd::arithmetic::div_mod::lemma_fundamental_div_mod_converse(q, s, x + 1, y);
    }
}

/// Boards joined by moves share their solvability class.
pub proof fn lemma_reachable_keeps_class(a: Seq<usize>, b: Seq<usize>, s: int)
    requires
        is_board(a, s),
        reachable(a, b, s),
    ensures
        parity_class(b, s) == parity_class(a, s),
{
    let path = choose|path: Seq<Seq<usize>>| #[trigger] is_path(path, s) && path[0] == a && path.last() == b;
    lemma_path_keeps_class(path, s, path.len() - 1);
}

proof fn lemma_path_keeps_class(path: Seq<Seq<usize>>, s: int, k: int)
    requires
        is_path(path, s),
        is_board(path[0], s),
        0 <= k < path.len(),
    ensures
        is_board(path[k], s),
        parity_class(path[k], s) == parity_class(path[0], s),
    decreases k,
{
    if k > 0 {
        lemma_path_keeps_class(path, s, k - 1);
        assert(is_move(path[k - 1], path[k], s));
        lemma_move_keeps_class(path[k - 1], path[k], s);
    }
}

/// Exchanging two tiles at cells `p` and `q`, neither the blank, changes the
/// solvability class.
pub proof fn lemma_tile_swap_changes_class(b: Seq<usize>, s: int, p: int, q: int)
    requires
        is_board(b, s),
        0 <= p < q < b.len(),
        b[p] != BLANK,
        b[q] != BLANK,
    ensures
        is_board(swapped(b, p, q), s),
        parity_class(swapped(b, p, q), s) != parity_class(b, s),
{
    let c = swapped(b, p, q);
    lemma_swap_keeps_board(b, s, p, q);
    lemma_swap_flips_inversions(b, s, p, q);
    let z = tile_pos(b, BLANK as int);
    assert(crate::board::has_tile(b, BLANK as int));
    lemma_tile_pos(b, s, z);
    assert(c[z] == BLANK);
    lemma_tile_pos(c, s, z);
}

} // verus!
