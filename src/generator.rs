//! Scrambled boards: random walks of the blank away from the solved board.
use rand::seq::SliceRandom;
use vstd::prelude::*;
use crate::board::{
    adjacent, is_board, is_move, is_path, lemma_reachable_symmetric, lemma_swap_keeps_board,
    reachable, swapped, BLANK,
};
use crate::goal::{goal_board, make_goal};
use crate::goal::lemma_goal_is_board;
use crate::heuristic::find_tile;
use crate::parity::{lemma_reachable_keeps_class, lemma_tile_swap_changes_class};

verus! {

/// Relies on rand's `SliceRandom::choose` with `thread_rng`: `None` for an
/// empty list, otherwise one of its entries.
#[verifier::external_body]
fn choose_one(options: &Vec<usize>) -> (r: Option<usize>)
    ensures
        r is None <==> options@.len() == 0,
        r matches Some(x) ==> options@.contains(x),
{
    options.choose(&mut rand::thread_rng()).copied()
}

/// The cells a blank at `p` may slide into, in the order left, right, up, down.
pub open spec fn targets(p: int, s: int) -> Seq<usize> {
    let left = if p % s > 0 { seq![(p - 1) as usize] } else { Seq::empty() };
    let right = if p % s < s - 1 { seq![(p + 1) as usize] } else { Seq::empty() };
    let up = if p >= s { seq![(p - s) as usize] } else { Seq::empty() };
    let down = if p + s < s * s { seq![(p + s) as usize] } else { Seq::empty() };
    left + right + up + down
}

/// `b` with two non-blank tiles exchanged: the last two cells when the blank
/// sits in one of the first two, else the first two.
pub open spec fn parity_flipped(b: Seq<usize>) -> Seq<usize> {
    if b[0] == BLANK || b[1] == BLANK {
        swapped(b, b.len() - 1, b.len() - 2)
    } else {
        swapped(b, 0, 1)
    }
}

/// `b` is a board of side `s` that moves lead to from the solved board.
pub open spec fn scrambled(b: Seq<usize>, s: int) -> bool {
    is_board(b, s) && reachable(goal_board(s), b, s)
}

/// Every listed cell is a legal destination, and for a grid of side at least
/// two there is one.
proof fn lemma_targets(p: int, s: int)
    requires
        s >= 1,
        0 <= p < s * s,
        s * s <= usize::MAX,
    ensures
        forall|k: int| 0 <= k < targets(p, s).len() ==> adjacent(s, p, #[trigger] targets(p, s)[k] as int),
        s >= 2 ==> targets(p, s).len() >= 1,
{
    let left = if p % s > 0 { seq![(p - 1) as usize] } else { Seq::<usize>::empty() };
    let right = if p % s < s - 1 { seq![(p + 1) as usize] } else { Seq::<usize>::empty() };
    let up = if p >= s { seq![(p - s) as usize] } else { Seq::<usize>::empty() };
    let down = if p + s < s * s { seq![(p + s) as usize] } else { Seq::<usize>::empty() };
    let t = targets(p, s);
    assert(t == left + right + up + down);
    vstd::arithmetic::div_mod::lemma_fundamental_div_mod(p, s);
    let x = p / s;
    let y = p % s;
    assert(0 <= x < s && y <= p) by (nonlinear_arith)
        requires p == s * x + y, 0 <= y < s, 0 <= p < s * s, s >= 1;
    assert(y + 1 < s ==> p + 1 < s * s) by (nonlinear_arith)
        requires p == s * x + y, 0 <= x < s, 0 <= y;
    assert forall|k: int| 0 <= k < t.len() implies adjacent(s, p, #[trigger] t[k] as int) by {
        let a = left + right;
        let b = a + up;
        if k < b.len() {
            assert(t[k] == b[k]);
            if k < a.len() {
                assert(b[k] == a[k]);
                if k < left.len() {
                    assert(a[k] == left[k]);
                } else {
                    assert(a[k] == right[k - left.len()]);
                }
            } else {
                assert(b[k] == up[k - a.len()]);
            }
        } else {
            assert(t[k] == down[k - b.len()]);
        }
    }
}

/// A board scrambled with `solvable` set can be solved: the search from it
/// to the solved board of its size finds a sequence of moves.
pub proof fn lemma_scrambled_is_solvable(b: Seq<usize>, s: int)
    requires
        s >= 1,
        s * s <= usize::MAX,
        scrambled(b, s),
    ensures
        crate::search::solvable(b, goal_board(s), s),
{
    lemma_goal_is_board(s);
    lemma_reachable_symmetric(goal_board(s), b, s);
}

/// A board scrambled with `solvable` unset cannot be solved: no sequence of
/// moves leads from it to the solved board of its size.
pub proof fn lemma_flipped_is_unsolvable(w: Seq<usize>, s: int)
    requires
        s >= 3,
        s * s <= usize::MAX,
        scrambled(w, s),
    ensures
        is_board(parity_flipped(w), s),
        !crate::search::solvable(parity_flipped(w), goal_board(s), s),
{
    let n = w.len() as int;
    let f = parity_flipped(w);
    assert(n >= 9) by (nonlinear_arith) requires n == s * s, s >= 3;
    if w[0] == BLANK || w[1] == BLANK {
        assert(w[n - 2] != BLANK && w[n - 1] != BLANK) by {
            if w[0] == BLANK {
                assert(w[0] != w[n - 2] && w[0] != w[n - 1]);
            } else {
                assert(w[1] != w[n - 2] && w[1] != w[n - 1]);
            }
        }
        lemma_tile_swap_changes_class(w, s, n - 2, n - 1);
        assert(swapped(w, n - 2, n - 1) =~= f);
    } else {
        lemma_tile_swap_changes_class(w, s, 0, 1);
    }
    let g = goal_board(s);
    lemma_goal_is_board(s);
    lemma_reachable_keeps_class(g, w, s);
    if reachable(f, g, s) {
        lemma_reachable_keeps_class(f, g, s);
    }
}

/// The cells a blank at `p` of a side-`s` board may slide into.
pub fn blank_targets(p: usize, s: usize) -> (r: Vec<usize>)
    requires
        s >= 1,
        p < s * s,
        s * s <= usize::MAX,
    ensures
        r@ == targets(p as int, s as int),
{
    proof {
        vstd::arithmetic::div_mod::lemma_fundamental_div_mod(p as int, s as int);
        let x = p as int / s as int;
        assert(0 <= x && p % s <= p) by (nonlinear_arith)
            requires p as int == s * x + p % s, 0 <= p % s < s, s >= 1, p >= 0;
        assert(s <= s * s) by (nonlinear_arith) requires s >= 1;
    }
    let mut r: Vec<usize> = Vec::new();
    if p % s > 0 {
        r.push(p - 1);
    }
    if p % s < s - 1 {
        r.push(p + 1);
    }
    if p >= s {
        r.push(p - s);
    }
    if p < s * s - s {
        r.push(p + s);
    }
    assert(r@ =~= targets(p as int, s as int));
    r
}

/// Slides the blank of `p` into one neighbouring cell, picked at random.
pub fn swap_empty(p: &mut Vec<usize>, s: usize)
    requires
        s >= 2,
        is_board(old(p)@, s as int),
    ensures
        is_board(final(p)@, s as int),
        is_move(old(p)@, final(p)@, s as int),
{
    let ghost before = p@;
    let n = p.len();
    assert(n >= 1) by (nonlinear_arith) requires n == s * s, s >= 2;
    let idx = find_tile(p, BLANK, Ghost(s as int));
    let options = blank_targets(idx, s);
    proof {
        lemma_targets(idx as int, s as int);
    }
    match choose_one(&options) {
        Some(q) => {
            proof {
                let k = choose|k: int| 0 <= k < options@.len() && options@[k] == q;
                assert(adjacent(s as int, idx as int, options@[k] as int));
            }
            let tile = p[q];
            p.set(idx, tile);
            p.set(q, BLANK);
            proof {
                assert(p@ =~= swapped(before, idx as int, q as int));
                lemma_swap_keeps_board(before, s as int, idx as int, q as int);
            }
        },
        None => {},
    }
}

/// Exchanges two tiles of `p`: the last two when the blank sits in one of
/// the first two cells, else the first two.
pub fn flip_parity(p: &mut Vec<usize>)
    requires
        old(p)@.len() >= 3,
    ensures
        final(p)@ == parity_flipped(old(p)@),
{
    let ghost before = p@;
    let len = p.len();
    let (i, j) = if p[0] == BLANK || p[1] == BLANK {
        (len - 1, len - 2)
    } else {
        (0, 1)
    };
    let a = p[i];
    let b = p[j];
    p.set(i, b);
    p.set(j, a);
    assert(p@ =~= parity_flipped(before));
}

/// A board of side `s` made by `iterations` random slides of the blank from
/// the solved board; when `solvable` is false two non-blank tiles are then
/// exchanged.
pub fn make_puzzle(s: usize, solvable: bool, iterations: usize) -> (r: Vec<usize>)
    requires
        s >= 3,
        s * s <= usize::MAX,
    ensures
        is_board(r@, s as int),
        exists|walk: Seq<Seq<usize>>| #[trigger] is_path(walk, s as int)
            && walk.len() == iterations + 1
            && walk[0] == goal_board(s as int)
            && (solvable ==> r@ == walk.last())
            && (!solvable ==> r@ == parity_flipped(walk.last())),
        solvable ==> scrambled(r@, s as int),
        !solvable ==> exists|w: Seq<usize>| scrambled(w, s as int) && r@ == parity_flipped(w),
        solvable == crate::search::solvable(r@, goal_board(s as int), s as int),
{
    let ghost si = s as int;
    let mut p = make_goal(s);
    let ghost mut walk: Seq<Seq<usize>> = seq![p@];
    assert(is_path(walk, si));
    let mut i: usize = 0;
    while i < iterations
        invariant
            s >= 3,
            si == s,
            i <= iterations,
            is_board(p@, si),
            is_path(walk, si),
            walk.len() == i + 1,
            walk[0] == goal_board(si),
            walk.last() == p@,
        decreases iterations - i,
    {
        let ghost before = p@;
        swap_empty(&mut p, s);
        proof {
            let longer = walk.push(p@);
            assert forall|k: int| 0 <= k < longer.len() - 1 implies is_move(#[trigger] longer[k], longer[k + 1], si) by {
                if k < walk.len() - 1 {
                    assert(longer[k] == walk[k] && longer[k + 1] == walk[k + 1]);
                } else {
                    assert(longer[k] == before);
                }
            }
            walk = longer;
        }
        i = i + 1;
    }
    assert(scrambled(p@, si));
    if !solvable {
        let ghost w = p@;
        assert(p@.len() >= 3) by (nonlinear_arith) requires p@.len() == si * si, si >= 3;
        flip_parity(&mut p);
        proof {
            if w[0] == BLANK || w[1] == BLANK {
                lemma_swap_keeps_board(w, si, w.len() - 1, w.len() - 2);
            } else {
                lemma_swap_keeps_board(w, si, 0, 1);
            }
            assert(scrambled(w, si));
            lemma_flipped_is_unsolvable(w, si);
            assert(is_path(walk, si) && p@ == parity_flipped(walk.last()));
        }
    } else {
        proof {
            lemma_scrambled_is_solvable(p@, si);
            assert(is_path(walk, si) && p@ == walk.last());
        }
    }
    p
}

} // verus!
