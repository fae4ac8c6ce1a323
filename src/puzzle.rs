//! Search nodes and the moves that lead out of them.
use vstd::prelude::*;
use crate::board::{adjacent, is_board, lemma_swap_keeps_board, swapped, BLANK};
use crate::heuristic::{manhattan_distance, manhattan_sum};

verus! {

/// One state of the search: a board, where its blank is, how many moves led
/// to it (`g`), its estimated distance to the goal (`h`), and the position of
/// the node it was reached from in the search's node table.
pub struct Puzzle {
    pub state: Vec<usize>,
    pub empty_pos: usize,
    pub g: usize,
    pub h: u128,
    pub parent: Option<usize>,
    pub size: usize,
}

/// A fresh copy of board `b`.
pub fn copy_board(b: &Vec<usize>) -> (r: Vec<usize>)
    ensures
        r@ == b@,
{
    let mut r: Vec<usize> = Vec::new();
    let mut i: usize = 0;
    while i < b.len()
        invariant
            i <= b@.len(),
            r@ == b@.subrange(0, i as int),
        decreases b@.len() - i,
    {
        r.push(b[i]);
        i = i + 1;
    }
    assert(r@ =~= b@);
    r
}

/// Whether two boards hold the same tiles in the same cells.
pub fn same_board(a: &Vec<usize>, b: &Vec<usize>) -> (r: bool)
    ensures
        r == (a@ == b@),
{
    if a.len() != b.len() {
        return false;
    }
    let mut i: usize = 0;
    while i < a.len()
        invariant
            a@.len() == b@.len(),
            i <= a@.len(),
            forall|j: int| 0 <= j < i ==> a@[j] == b@[j],
        decreases a@.len() - i,
    {
        if a[i] != b[i] {
            return false;
        }
        i = i + 1;
    }
    assert(a@ =~= b@);
    true
}

/// The cells a blank at `p` of a side-`s` board moves to, in the order down,
/// up, right, left, where the grid allows.
pub open spec fn successor_cells(p: int, s: int) -> Seq<usize> {
    let down = if p + s < s * s { seq![(p + s) as usize] } else { Seq::empty() };
    let up = if p >= s { seq![(p - s) as usize] } else { Seq::empty() };
    let right = if p % s < s - 1 { seq![(p + 1) as usize] } else { Seq::empty() };
    let left = if p % s > 0 { seq![(p - 1) as usize] } else { Seq::empty() };
    down + up + right + left
}

impl Puzzle {
    /// The node is a board of its size with the blank at `empty_pos`, and
    /// `h` is its distance to `goal`.
    pub open spec fn wf(&self, goal: Seq<usize>) -> bool {
        &&& is_board(self.state@, self.size as int)
        &&& is_board(goal, self.size as int)
        &&& self.empty_pos < self.state@.len()
        &&& self.state@[self.empty_pos as int] == BLANK
        &&& self.h == manhattan_sum(self.state@, goal, self.size as int)
        &&& self.h <= 0x1_0000_0000_0000_0000 * 0x2_0000_0000
    }

    /// A node for `state`, with `h` measured against `goal`.
    pub fn new(
        state: Vec<usize>,
        empty_pos: usize,
        parent: Option<usize>,
        g: usize,
        goal: &Vec<usize>,
        size: usize,
    ) -> (r: Puzzle)
        requires
            is_board(state@, size as int),
            is_board(goal@, size as int),
        ensures
            r.state@ == state@,
            r.empty_pos == empty_pos,
            r.parent == parent,
            r.g == g,
            r.size == size,
            r.h == manhattan_sum(state@, goal@, size as int),
            r.h <= 0x1_0000_0000_0000_0000 * 0x2_0000_0000,
    {
        let h = Self::heuristic(&state, goal, size);
        Puzzle { state, empty_pos, g, h, parent, size }
    }

    /// Sum of the Manhattan distances of the non-blank tiles of `state` to
    /// their cells on `goal`.
    pub fn heuristic(state: &Vec<usize>, goal: &Vec<usize>, size: usize) -> (h: u128)
        requires
            is_board(state@, size as int),
            is_board(goal@, size as int),
        ensures
            h == manhattan_sum(state@, goal@, size as int),
            h <= 0x1_0000_0000_0000_0000 * 0x2_0000_0000,
    {
        manhattan_distance(state, goal, size)
    }

    /// A copy of this node.
    pub fn copy(&self) -> (r: Puzzle)
        ensures
            r.state@ == self.state@,
            r.empty_pos == self.empty_pos,
            r.g == self.g,
            r.h == self.h,
            r.parent == self.parent,
            r.size == self.size,
    {
        Puzzle {
            state: copy_board(&self.state),
            empty_pos: self.empty_pos,
            g: self.g,
            h: self.h,
            parent: self.parent,
            size: self.size,
        }
    }

    /// The node reached by sliding the blank into cell `q`.
    fn child(&self, q: usize, index: usize, goal: &Vec<usize>) -> (r: Puzzle)
        requires
            self.wf(goal@),
            self.g < usize::MAX,
            adjacent(self.size as int, self.empty_pos as int, q as int),
        ensures
            r.wf(goal@),
            r.size == self.size,
            r.empty_pos == q,
            r.state@ == swapped(self.state@, self.empty_pos as int, q as int),
            r.parent == Some(index),
            r.g == self.g + 1,
    {
        let p = self.empty_pos;
        let mut state = copy_board(&self.state);
        let tile = state[q];
        state.set(p, tile);
        state.set(q, BLANK);
        proof {
            lemma_swap_keeps_board(self.state@, self.size as int, p as int, q as int);
            assert(state@ =~= swapped(self.state@, p as int, q as int));
        }
        Puzzle::new(state, q, Some(index), self.g + 1, goal, self.size)
    }

    /// Every node one move away from this one, with this node, found at
    /// `index` of the node table, as their parent: the blank goes down, up,
    /// right and left, where the grid allows.
    pub fn possible_moves(&self, index: usize, goal: &Vec<usize>) -> (r: Vec<Puzzle>)
        requires
            self.wf(goal@),
            self.g < usize::MAX,
        ensures
            forall|k: int| 0 <= k < r@.len() ==> {
                &&& (#[trigger] r@[k]).wf(goal@)
                &&& r@[k].size == self.size
                &&& adjacent(self.size as int, self.empty_pos as int, r@[k].empty_pos as int)
                &&& r@[k].state@ == swapped(self.state@, self.empty_pos as int, r@[k].empty_pos as int)
                &&& r@[k].parent == Some(index)
                &&& r@[k].g == self.g + 1
            },
            forall|q: int| adjacent(self.size as int, self.empty_pos as int, q) ==>
                exists|k: int| 0 <= k < r@.len() && (#[trigger] r@[k]).empty_pos == q,
            r@.len() == successor_cells(self.empty_pos as int, self.size as int).len(),
            forall|k: int| 0 <= k < r@.len() ==> (#[trigger] r@[k]).empty_pos == successor_cells(
                self.empty_pos as int,
                self.size as int,
            )[k],
    {
        let s = self.size;
        let p = self.empty_pos;
        let n = self.state.len();
        let ghost si = s as int;
        let ghost pi = p as int;
        assert(si <= n as int) by (nonlinear_arith) requires n as int == si * si, si >= 1;
        proof {
            vstd::arithmetic::div_mod::lemma_fundamental_div_mod(pi, si);
            let x = pi / si;
            let y = pi % si;
            assert(0 <= y < si);
            assert(0 <= x < si && y <= pi) by (nonlinear_arith)
                requires pi == si * x + y, 0 <= y < si, 0 <= pi < si * si, si >= 1;
            assert(y + 1 < si ==> pi + 1 < si * si) by (nonlinear_arith)
                requires pi == si * x + y, 0 <= x < si, 0 <= y;
        }
        let mut r: Vec<Puzzle> = Vec::new();
        let ghost mut at: Map<int, int> = Map::empty();
        let ghost mut cells: Seq<usize> = Seq::empty();
        if p < n - s {
            r.push(self.child(p + s, index, goal));
            proof {
                at = at.insert(pi + si, r@.len() - 1);
                cells = cells.push((pi + si) as usize);
            }
        }
        if p >= s {
            r.push(self.child(p - s, index, goal));
            proof {
                at = at.insert(pi - si, r@.len() - 1);
                cells = cells.push((pi - si) as usize);
            }
        }
        if p % s < s - 1 {
            r.push(self.child(p + 1, index, goal));
            proof {
                at = at.insert(pi + 1, r@.len() - 1);
                cells = cells.push((pi + 1) as usize);
            }
        }
        if p % s > 0 {
            r.push(self.child(p - 1, index, goal));
            proof {
                at = at.insert(pi - 1, r@.len() - 1);
                cells = cells.push((pi - 1) as usize);
            }
        }
        proof {
            assert(cells =~= successor_cells(pi, si));
            assert(si >= 1);
            assert forall|q: int| adjacent(si, pi, q) implies
                exists|k: int| 0 <= k < r@.len() && (#[trigger] r@[k]).empty_pos == q by {
                assert(at.contains_key(q));
                let k = at[q];
                assert(0 <= k < r@.len() && r@[k].empty_pos == q);
            }
        }
        r
    }
}

} // verus!
