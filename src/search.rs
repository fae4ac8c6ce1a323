//! Best-first (A*) search for a sequence of moves from one board to another.
use vstd::prelude::*;
use crate::board::{adjacent, has_tile, is_board, is_move, is_path, lemma_board_count, power, reachable, swapped, BLANK};
use crate::heuristic::{find_tile, lemma_cost_along_path, lemma_zero_iff_goal, manhattan_sum};
use crate::puzzle::{copy_board, same_board, Puzzle};

verus! {

/// Why a search was refused.
#[derive(Debug, Clone, Copy, PartialEq, Eq, Structural)]
pub enum BoardError {
    /// The start is not a permutation of `0..size*size`.
    MalformedStart,
    /// The goal is not a permutation of `0..size*size`.
    MalformedGoal,
}

/// The boards of a sequence of vectors.
pub open spec fn boards(p: Seq<Vec<usize>>) -> Seq<Seq<usize>> {
    p.map_values(|b: Vec<usize>| b@)
}

/// `p` leads by legal moves from `start` to `goal`.
pub open spec fn is_solution(p: Seq<Seq<usize>>, start: Seq<usize>, goal: Seq<usize>, s: int) -> bool {
    &&& is_path(p, s)
    &&& p[0] == start
    &&& p.last() == goal
}

/// Both are boards of side `s`, and moves lead from `start` to `goal`.
pub open spec fn solvable(start: Seq<usize>, goal: Seq<usize>, s: int) -> bool {
    &&& is_board(start, s)
    &&& is_board(goal, s)
    &&& reachable(start, goal, s)
}

/// Whether `b` is a board of side `size`.
pub fn check_board(b: &Vec<usize>, size: usize) -> (r: bool)
    ensures
        r == is_board(b@, size as int),
{
    let n = b.len();
    if size == 0 {
        return false;
    }
    proof {
        vstd::arithmetic::div_mod::lemma_fundamental_div_mod(n as int, size as int);
    }
    if n / size != size || n % size != 0 {
        proof {
            if n == size * size {
                vstd::arithmetic::div_mod::lemma_fundamental_div_mod_converse(n as int, size as int, size as int, 0);
            }
        }
        return false;
    }
    assert(n == size * size);
    let mut seen: Vec<bool> = Vec::new();
    let mut i: usize = 0;
    while i < n
        invariant
            i <= n,
            seen@.len() == i,
            forall|j: int| 0 <= j < i ==> !seen@[j],
        decreases n - i,
    {
        seen.push(false);
        i = i + 1;
    }
    i = 0;
    while i < n
        invariant
            n == b@.len(),
            n == size * size,
            seen@.len() == n,
            i <= n,
            forall|j: int| 0 <= j < i ==> b@[j] < n,
            forall|j: int, k: int| 0 <= j < i && 0 <= k < i && j != k ==> b@[j] != b@[k],
            forall|v: int| 0 <= v < n ==> (seen@[v] <==> exists|j: int| 0 <= j < i && b@[j] == v),
        decreases n - i,
    {
        let v = b[i];
        if v >= n {
            return false;
        }
        if seen[v] {
            proof {
                let j = choose|j: int| 0 <= j < i && b@[j] == v;
                assert(b@[j] == b@[i as int]);
            }
            return false;
        }
        seen.set(v, true);
        proof {
            assert forall|w: int| 0 <= w < n implies (seen@[w] <==> exists|j: int| 0 <= j < i + 1 && b@[j] == w) by {
                if w == v {
                    assert(b@[i as int] == w);
                } else if seen@[w] {
                    let j = choose|j: int| 0 <= j < i && b@[j] == w;
                    assert(0 <= j < i + 1 && b@[j] == w);
                }
            }
        }
        i = i + 1;
    }
    let mut v: usize = 0;
    while v < n
        invariant
            n == b@.len(),
            seen@.len() == n,
            v <= n,
            forall|w: int| 0 <= w < n ==> (seen@[w] <==> exists|j: int| 0 <= j < n && b@[j] == w),
            forall|w: int| 0 <= w < v ==> has_tile(b@, w),
        decreases n - v,
    {
        if !seen[v] {
            assert(!has_tile(b@, v as int));
            return false;
        }
        assert(has_tile(b@, v as int));
        v = v + 1;
    }
    true
}


/// Node `i` of the table is well formed, and it was either the start or
/// reached by one move from an earlier node, its parent.
pub open spec fn node_ok(table: Seq<Puzzle>, i: int, start: Seq<usize>, goal: Seq<usize>, s: usize) -> bool {
    let nd = table[i];
    &&& nd.wf(goal)
    &&& nd.size == s
    &&& nd.g <= i
    &&& match nd.parent {
        None => nd.state@ == start && nd.g == 0,
        Some(p) => p < i && is_move(table[p as int].state@, nd.state@, s as int) && nd.g == table[p as int].g + 1,
    }
}

/// Every node of the table is well formed.
pub open spec fn table_ok(table: Seq<Puzzle>, start: Seq<usize>, goal: Seq<usize>, s: usize) -> bool {
    forall|i: int| 0 <= i < table.len() ==> #[trigger] node_ok(table, i, start, goal, s)
}

/// The board of the node that entry `k` of `ids` points to.
pub open spec fn board_at(table: Seq<Puzzle>, ids: Seq<usize>, k: int) -> Seq<usize> {
    table[ids[k] as int].state@
}

/// Some entry of `ids` points to a node whose board is `m`.
pub open spec fn listed(table: Seq<Puzzle>, ids: Seq<usize>, m: Seq<usize>) -> bool {
    exists|k: int| 0 <= k < ids.len() && #[trigger] board_at(table, ids, k) == m
}

/// Every entry of `ids` points into the table.
pub open spec fn ids_ok(table: Seq<Puzzle>, ids: Seq<usize>) -> bool {
    forall|k: int| 0 <= k < ids.len() ==> #[trigger] ids[k] < table.len()
}

/// Priority of a node: moves made plus estimated moves left.
pub open spec fn f_of(nd: Puzzle) -> int {
    nd.g + nd.h
}

/// Position in `open` of the first node of least priority.
fn cheapest(table: &Vec<Puzzle>, open: &Vec<usize>, Ghost(goal): Ghost<Seq<usize>>) -> (j: usize)
    requires
        open@.len() > 0,
        ids_ok(table@, open@),
        forall|i: int| 0 <= i < table@.len() ==> (#[trigger] table@[i]).wf(goal),
    ensures
        j < open@.len(),
        forall|k: int| 0 <= k < open@.len() ==> f_of(table@[open@[j as int] as int]) <= f_of(
            #[trigger] table@[open@[k] as int],
        ),
{
    let mut best: usize = 0;
    let mut best_f: u128 = table[open[0]].g as u128 + table[open[0]].h;
    let mut k: usize = 1;
    assert(table@[open@[0] as int].wf(goal));
    while k < open.len()
        invariant
            ids_ok(table@, open@),
            forall|i: int| 0 <= i < table@.len() ==> (#[trigger] table@[i]).wf(goal),
            open@.len() > 0,
            best < open@.len(),
            1 <= k <= open@.len(),
            best_f == f_of(table@[open@[best as int] as int]),
            forall|i: int| 0 <= i < k ==> best_f <= f_of(#[trigger] table@[open@[i] as int]),
        decreases open@.len() - k,
    {
        assert(open@[k as int] < table@.len());
        assert(table@[open@[k as int] as int].wf(goal));
        let nd = &table[open[k]];
        let f: u128 = nd.g as u128 + nd.h;
        if f < best_f {
            best = k;
            best_f = f;
        }
        k = k + 1;
    }
    best
}

/// Whether some entry of `ids` points to a node with board `b`.
fn is_listed(table: &Vec<Puzzle>, ids: &Vec<usize>, b: &Vec<usize>) -> (r: bool)
    requires
        ids_ok(table@, ids@),
    ensures
        r == listed(table@, ids@, b@),
{
    let mut k: usize = 0;
    while k < ids.len()
        invariant
            ids_ok(table@, ids@),
            k <= ids@.len(),
            forall|i: int| 0 <= i < k ==> board_at(table@, ids@, i) != b@,
        decreases ids@.len() - k,
    {
        assert(ids@[k as int] < table@.len());
        if same_board(&table[ids[k]].state, b) {
            assert(board_at(table@, ids@, k as int) == b@);
            return true;
        }
        k = k + 1;
    }
    false
}

/// Whether some entry of `open` points to a node with board `b` reached in
/// at most `g` moves.
fn listed_no_worse(table: &Vec<Puzzle>, open: &Vec<usize>, b: &Vec<usize>, g: usize) -> (r: bool)
    requires
        ids_ok(table@, open@),
    ensures
        r == exists|k: int| 0 <= k < open@.len() && #[trigger] board_at(table@, open@, k) == b@
            && table@[open@[k] as int].g <= g,
{
    let mut k: usize = 0;
    while k < open.len()
        invariant
            ids_ok(table@, open@),
            k <= open@.len(),
            forall|i: int| 0 <= i < k ==> !(#[trigger] board_at(table@, open@, i) == b@
                && table@[open@[i] as int].g <= g),
        decreases open@.len() - k,
    {
        assert(open@[k as int] < table@.len());
        let nd = &table[open[k]];
        if nd.g <= g && same_board(&nd.state, b) {
            assert(board_at(table@, open@, k as int) == b@);
            return true;
        }
        k = k + 1;
    }
    false
}

/// The node reached from node `i` by following `k` parent links (a node
/// without a parent is its own).
pub open spec fn ancestor(table: Seq<Puzzle>, i: int, k: nat) -> int
    decreases k,
{
    if k == 0 {
        i
    } else {
        let a = ancestor(table, i, (k - 1) as nat);
        match table[a].parent {
            Some(p) => p as int,
            None => a,
        }
    }
}

/// The boards from the start to node `last`, found by following parents.
fn reconstruct_path(
    table: &Vec<Puzzle>,
    last: usize,
    Ghost(start): Ghost<Seq<usize>>,
    Ghost(goal): Ghost<Seq<usize>>,
    Ghost(s): Ghost<usize>,
) -> (r: Vec<Vec<usize>>)
    requires
        table_ok(table@, start, goal, s),
        last < table@.len(),
    ensures
        is_path(boards(r@), s as int),
        boards(r@)[0] == start,
        boards(r@).last() == table@[last as int].state@,
        table@[last as int].parent is None ==> r@.len() == 1,
        r@.len() == table@[last as int].g + 1,
        table@[ancestor(table@, last as int, (r@.len() - 1) as nat)].parent is None,
        forall|i: int| 0 <= i < r@.len() ==> (#[trigger] r@[i])@ == table@[ancestor(
            table@,
            last as int,
            (r@.len() - 1 - i) as nat,
        )].state@,
{
    let mut back: Vec<Vec<usize>> = Vec::new();
    back.push(copy_board(&table[last].state));
    let mut cur: usize = last;
    assert(node_ok(table@, last as int, start, goal, s));
    while table[cur].parent.is_some()
        invariant
            table_ok(table@, start, goal, s),
            cur < table@.len(),
            back@.len() >= 1,
            back@[0]@ == table@[last as int].state@,
            back@[back@.len() - 1]@ == table@[cur as int].state@,
            table@[last as int].parent is None ==> cur == last && back@.len() == 1,
            back@.len() + table@[cur as int].g == table@[last as int].g + 1,
            forall|i: int| 0 <= i < back@.len() - 1 ==> is_move(#[trigger] back@[i + 1]@, back@[i]@, s as int),
            cur == ancestor(table@, last as int, (back@.len() - 1) as nat),
            forall|i: int| 0 <= i < back@.len() ==> (#[trigger] back@[i])@ == table@[ancestor(table@, last as int, i as nat)].state@,
        decreases cur,
    {
        assert(node_ok(table@, cur as int, start, goal, s));
        let p = table[cur].parent.unwrap();
        assert(node_ok(table@, p as int, start, goal, s));
        let ghost m = back@.len();
        back.push(copy_board(&table[p].state));
        cur = p;
        assert(ancestor(table@, last as int, m as nat) == p);
    }
    assert(node_ok(table@, cur as int, start, goal, s));
    let mut r: Vec<Vec<usize>> = Vec::new();
    let mut k: usize = back.len();
    while k > 0
        invariant
            k <= back@.len(),
            back@.len() >= 1,
            r@.len() == back@.len() - k,
            forall|i: int| 0 <= i < r@.len() ==> #[trigger] r@[i]@ == back@[back@.len() - 1 - i]@,
        decreases k,
    {
        k = k - 1;
        r.push(copy_board(&back[k]));
    }
    proof {
        let bs = boards(r@);
        let n = back@.len();
        assert forall|i: int| 0 <= i < bs.len() - 1 implies is_move(#[trigger] bs[i], bs[i + 1], s as int) by {
            assert(bs[i] == back@[n - 1 - i]@);
            assert(bs[i + 1] == back@[n - 1 - (i + 1)]@);
            assert(is_move(back@[(n - 2 - i) + 1]@, back@[n - 2 - i]@, s as int));
        }
        assert(bs[0] == back@[n - 1]@);
        assert(bs[bs.len() - 1] == back@[0]@);
        assert forall|i: int| 0 <= i < r@.len() implies (#[trigger] r@[i])@ == table@[ancestor(
            table@,
            last as int,
            (r@.len() - 1 - i) as nat,
        )].state@ by {
            assert(r@[i]@ == back@[n - 1 - i]@);
        }
    }
    r
}


/// `long` starts with all of `short`.
pub open spec fn extends<T>(long: Seq<T>, short: Seq<T>) -> bool {
    &&& short.len() <= long.len()
    &&& forall|i: int| 0 <= i < short.len() ==> long[i] == short[i]
}

/// Some entry of `ids` points to a node with board `m` reached in at most `g` moves.
pub open spec fn listed_within(table: Seq<Puzzle>, ids: Seq<usize>, m: Seq<usize>, g: int) -> bool {
    exists|k: int| 0 <= k < ids.len() && #[trigger] board_at(table, ids, k) == m && table[ids[k] as int].g <= g
}

/// No sequence of moves from `start` reaches `b` in fewer than `g` moves.
pub open spec fn no_shorter_path(start: Seq<usize>, b: Seq<usize>, s: int, g: int) -> bool {
    forall|path: Seq<Seq<usize>>| #[trigger] is_path(path, s) && path[0] == start && path.last() == b ==> g <= path.len() - 1
}

/// Every move out of a board `b` of `done` leads to a board of `done` or to
/// one that `open` lists, reached in at most one move more than `b` was.
pub open spec fn closed_under(
    table: Seq<Puzzle>,
    open: Seq<usize>,
    done: Set<Seq<usize>>,
    moves_to: Map<Seq<usize>, int>,
    s: int,
) -> bool {
    forall|b: Seq<usize>, m: Seq<usize>| done.contains(b) && #[trigger] is_move(b, m, s)
        ==> done.contains(m) || listed_within(table, open, m, moves_to[b] + 1)
}

/// Growing the table and the list keeps what the list showed.
proof fn lemma_within_grow(t1: Seq<Puzzle>, o1: Seq<usize>, t2: Seq<Puzzle>, o2: Seq<usize>, m: Seq<usize>, g: int)
    requires
        ids_ok(t1, o1),
        extends(t2, t1),
        extends(o2, o1),
        listed_within(t1, o1, m, g),
    ensures
        listed_within(t2, o2, m, g),
{
    let k = choose|k: int| 0 <= k < o1.len() && #[trigger] board_at(t1, o1, k) == m && t1[o1[k] as int].g <= g;
    assert(o1[k] < t1.len());
    assert(board_at(t2, o2, k) == m);
}

/// Taking entry `j` out of a list keeps every board it showed but that entry's.
proof fn lemma_within_remove(t: Seq<Puzzle>, o: Seq<usize>, j: int, m: Seq<usize>, g: int)
    requires
        0 <= j < o.len(),
        listed_within(t, o, m, g),
    ensures
        listed_within(t, o.remove(j), m, g) || board_at(t, o, j) == m,
{
    let k = choose|k: int| 0 <= k < o.len() && #[trigger] board_at(t, o, k) == m && t[o[k] as int].g <= g;
    let o2 = o.remove(j);
    if k < j {
        assert(board_at(t, o2, k) == m);
    } else if k > j {
        assert(board_at(t, o2, k - 1) == m);
    }
}

/// Adding one entry to a list shows what it showed and that entry's board.
proof fn lemma_within_push(t: Seq<Puzzle>, o: Seq<usize>, id: usize, m: Seq<usize>, g: int)
    requires
        listed_within(t, o, m, g) || (t[id as int].state@ == m && t[id as int].g <= g),
    ensures
        listed_within(t, o.push(id), m, g),
{
    let o2 = o.push(id);
    if listed_within(t, o, m, g) {
        let k = choose|k: int| 0 <= k < o.len() && #[trigger] board_at(t, o, k) == m && t[o[k] as int].g <= g;
        assert(board_at(t, o2, k) == m);
    } else {
        assert(board_at(t, o2, o.len() as int) == m);
    }
}

/// Along a path from the start to a board not yet expanded, some board
/// `path[k]` is listed open, reached in at most `k` moves.
proof fn lemma_frontier_on_path(
    table: Seq<Puzzle>,
    open: Seq<usize>,
    done: Set<Seq<usize>>,
    moves_to: Map<Seq<usize>, int>,
    start: Seq<usize>,
    s: int,
    path: Seq<Seq<usize>>,
    i: int,
) -> (k: int)
    requires
        closed_under(table, open, done, moves_to, s),
        forall|c: Seq<usize>| #[trigger] done.contains(c) ==> no_shorter_path(start, c, s, moves_to[c]),
        done.contains(start) || listed_within(table, open, start, 0),
        is_path(path, s),
        path[0] == start,
        !done.contains(path.last()),
        0 <= i < path.len(),
        forall|l: int| 0 <= l < i ==> done.contains(#[trigger] path[l]),
    ensures
        0 <= k < path.len(),
        listed_within(table, open, path[k], k),
    decreases path.len() - i,
{
    if done.contains(path[i]) {
        lemma_frontier_on_path(table, open, done, moves_to, start, s, path, i + 1)
    } else if i == 0 {
        0
    } else {
        let x = path[i - 1];
        let prefix = path.subrange(0, i);
        assert forall|l: int| 0 <= l < prefix.len() - 1 implies is_move(#[trigger] prefix[l], prefix[l + 1], s) by {
            assert(prefix[l] == path[l] && prefix[l + 1] == path[l + 1]);
        }
        assert(is_path(prefix, s) && prefix[0] == start && prefix.last() == x);
        assert(done.contains(x));
        assert(moves_to[x] <= i - 1);
        assert(is_move(x, path[i], s));
        let kk = choose|kk: int| 0 <= kk < open.len() && #[trigger] board_at(table, open, kk) == path[i]
            && table[open[kk] as int].g <= moves_to[x] + 1;
        assert(board_at(table, open, kk) == path[i]);
        i
    }
}

/// A node of least priority, taken from the open list, was reached in no
/// more moves than any path from the start to its board has, provided that
/// board was not expanded before.
#[verifier::rlimit(40)]
proof fn lemma_pop_is_optimal(
    table: Seq<Puzzle>,
    open: Seq<usize>,
    done: Set<Seq<usize>>,
    moves_to: Map<Seq<usize>, int>,
    start: Seq<usize>,
    goal: Seq<usize>,
    s: int,
    j: int,
    path: Seq<Seq<usize>>,
)
    requires
        closed_under(table, open, done, moves_to, s),
        forall|c: Seq<usize>| #[trigger] done.contains(c) ==> no_shorter_path(start, c, s, moves_to[c]),
        done.contains(start) || listed_within(table, open, start, 0),
        is_board(start, s),
        is_board(goal, s),
        ids_ok(table, open),
        forall|i: int| 0 <= i < table.len() ==> (#[trigger] table[i]).wf(goal) && table[i].size == s,
        0 <= j < open.len(),
        forall|k: int| 0 <= k < open.len() ==> f_of(table[open[j] as int]) <= f_of(#[trigger] table[open[k] as int]),
        is_path(path, s),
        path[0] == start,
        path.last() == table[open[j] as int].state@,
        !done.contains(path.last()),
    ensures
        table[open[j] as int].g <= path.len() - 1,
{
    let n = path.len() as int;
    let k = lemma_frontier_on_path(table, open, done, moves_to, start, s, path, 0);
    let kk = choose|kk: int| 0 <= kk < open.len() && #[trigger] board_at(table, open, kk) == path[k]
        && table[open[kk] as int].g <= k;
    assert(open[kk] < table.len());
    assert(table[open[kk] as int].wf(goal));
    assert(open[j] < table.len());
    assert(table[open[j] as int].wf(goal));
    lemma_cost_along_path(path, goal, s, k);
    let rest = path.subrange(k, n);
    assert forall|l: int| 0 <= l < rest.len() - 1 implies is_move(#[trigger] rest[l], rest[l + 1], s) by {
        assert(rest[l] == path[k + l] && rest[l + 1] == path[k + l + 1]);
        assert(is_move(path[k + l], path[(k + l) + 1], s));
    }
    assert(rest[0] == path[k]);
    lemma_cost_along_path(rest, goal, s, n - 1 - k);
    assert(rest[n - 1 - k] == path.last());
    let e = table[open[kk] as int];
    let top = table[open[j] as int];
    assert(f_of(top) <= f_of(e));
    assert(e.state@ == path[k]);
    assert(e.h == manhattan_sum(path[k], goal, s));
    assert(top.h == manhattan_sum(path.last(), goal, s));
}

/// Growing the table and the list keeps what the list showed.
proof fn lemma_listed_grow(t1: Seq<Puzzle>, o1: Seq<usize>, t2: Seq<Puzzle>, o2: Seq<usize>, m: Seq<usize>)
    requires
        ids_ok(t1, o1),
        extends(t2, t1),
        extends(o2, o1),
    ensures
        listed(t1, o1, m) ==> listed(t2, o2, m),
        o1 == o2 ==> (listed(t1, o1, m) == listed(t2, o2, m)),
{
    if listed(t1, o1, m) {
        let k = choose|k: int| 0 <= k < o1.len() && #[trigger] board_at(t1, o1, k) == m;
        assert(o1[k] < t1.len());
        assert(board_at(t2, o2, k) == m);
    }
    if o1 == o2 && listed(t2, o2, m) {
        let k = choose|k: int| 0 <= k < o2.len() && #[trigger] board_at(t2, o2, k) == m;
        assert(o1[k] < t1.len());
        assert(board_at(t1, o1, k) == m);
    }
}

/// Adding one entry to a list shows that entry's board too.
proof fn lemma_listed_push(t: Seq<Puzzle>, o: Seq<usize>, id: usize, m: Seq<usize>)
    ensures
        listed(t, o.push(id), m) == (listed(t, o, m) || t[id as int].state@ == m),
{
    let o2 = o.push(id);
    if listed(t, o, m) {
        let k = choose|k: int| 0 <= k < o.len() && #[trigger] board_at(t, o, k) == m;
        assert(board_at(t, o2, k) == m);
    }
    if t[id as int].state@ == m {
        assert(board_at(t, o2, o.len() as int) == m);
    }
    if listed(t, o2, m) {
        let k = choose|k: int| 0 <= k < o2.len() && #[trigger] board_at(t, o2, k) == m;
        if k < o.len() {
            assert(board_at(t, o, k) == m);
        }
    }
}

/// When nothing is left open, every board reachable from a board of `done`
/// is in `done`.
proof fn lemma_closed_world(done: Set<Seq<usize>>, s: int, path: Seq<Seq<usize>>)
    requires
        forall|b: Seq<usize>, m: Seq<usize>| done.contains(b) && #[trigger] is_move(b, m, s) ==> done.contains(m),
        is_path(path, s),
        done.contains(path[0]),
    ensures
        forall|i: int| 0 <= i < path.len() ==> done.contains(#[trigger] path[i]),
{
    assert forall|i: int| 0 <= i < path.len() implies done.contains(#[trigger] path[i]) by {
        lemma_closed_world_upto(done, s, path, i);
    }
}

proof fn lemma_closed_world_upto(done: Set<Seq<usize>>, s: int, path: Seq<Seq<usize>>, i: int)
    requires
        forall|b: Seq<usize>, m: Seq<usize>| done.contains(b) && #[trigger] is_move(b, m, s) ==> done.contains(m),
        is_path(path, s),
        done.contains(path[0]),
        0 <= i < path.len(),
    ensures
        done.contains(path[i]),
    decreases i,
{
    if i > 0 {
        lemma_closed_world_upto(done, s, path, i - 1);
        assert(is_move(path[i - 1], path[i], s));
    }
}

/// A shortest sequence of boards, each one move from the one before, that
/// leads from `start` to `goal`, found by A* search under the Manhattan
/// distance; `None` when no sequence of moves leads there. Of the open
/// nodes of least priority the one listed first is expanded first; a node
/// whose board was expanded before is dropped when it comes up again, and a
/// new node is not listed when its board is expanded already or listed open
/// with no more moves.
pub fn a_star(start: &Vec<usize>, goal: &Vec<usize>, size: usize) -> (r: Result<
    Option<Vec<Vec<usize>>>,
    BoardError,
>)
    ensures
        r == Err::<Option<Vec<Vec<usize>>>, BoardError>(BoardError::MalformedStart) <==> !is_board(start@, size as int),
        r == Err::<Option<Vec<Vec<usize>>>, BoardError>(BoardError::MalformedGoal) <==> is_board(start@, size as int) && !is_board(goal@, size as int),
        (r matches Ok(Some(_))) <==> solvable(start@, goal@, size as int),
        r matches Ok(Some(p)) ==> is_solution(boards(p@), start@, goal@, size as int),
        r matches Ok(Some(p)) ==> forall|q: Seq<Seq<usize>>| #[trigger] is_solution(q, start@, goal@, size as int) ==> p@.len() <= q.len(),
        solvable(start@, goal@, size as int) && start@ == goal@ ==> (r matches Ok(Some(p)) && p@.len() == 1),
{
    if !check_board(start, size) {
        return Err(BoardError::MalformedStart);
    }
    if !check_board(goal, size) {
        return Err(BoardError::MalformedGoal);
    }
    let ghost st = start@;
    let ghost gl = goal@;
    let ghost s = size as int;
    let n = start.len();
    let ghost bound = power(n as int, n as nat);
    assert(n >= 1) by (nonlinear_arith) requires n as int == s * s, s >= 1;
    let blank = find_tile(start, BLANK, Ghost(s));
    let mut table: Vec<Puzzle> = Vec::new();
    table.push(Puzzle::new(copy_board(start), blank, None, 0, goal, size));
    let mut open: Vec<usize> = Vec::new();
    open.push(0);
    let mut closed: Vec<usize> = Vec::new();
    let ghost mut done: Set<Seq<usize>> = Set::empty();
    let ghost mut moves_to: Map<Seq<usize>, int> = Map::empty();
    proof {
        assert(node_ok(table@, 0, st, gl, size));
        assert(board_at(table@, open@, 0) == st);
        assert(listed_within(table@, open@, st, 0));
        assert(open@ == seq![0usize]);
        lemma_board_count(done, n as int);
    }
    while open.len() > 0
        invariant
            is_board(st, s),
            is_board(gl, s),
            st == start@,
            gl == goal@,
            s == size,
            n == st.len(),
            bound == power(n as int, n as nat),
            table_ok(table@, st, gl, size),
            ids_ok(table@, open@),
            ids_ok(table@, closed@),
            done.finite(),
            done.len() == closed@.len(),
            closed@.len() <= bound,
            moves_to.dom() == done,
            forall|m: Seq<usize>| #[trigger] done.contains(m) <==> listed(table@, closed@, m),
            forall|m: Seq<usize>| #[trigger] done.contains(m) ==> is_board(m, s) && no_shorter_path(st, m, s, moves_to[m]),
            closed_under(table@, open@, done, moves_to, s),
            done.contains(st) || listed_within(table@, open@, st, 0),
            !done.contains(gl),
            st == gl ==> closed@.len() == 0 && open@ == seq![0usize] && table@[0].parent is None,
        decreases bound - closed@.len(), open@.len(),
    {
        proof {
            assert forall|i: int| 0 <= i < table@.len() implies (#[trigger] table@[i]).wf(gl) && table@[i].size == s by {
                assert(node_ok(table@, i, st, gl, size));
            }
        }
        let j = cheapest(&table, &open, Ghost(gl));
        let ghost open0 = open@;
        let cur = open.remove(j);
        assert(open0[j as int] == cur);
        assert(cur < table@.len());
        assert(node_ok(table@, cur as int, st, gl, size));
        let ghost b = table@[cur as int].state@;
        let ghost gcur = table@[cur as int].g as int;
        proof {
            assert forall|m: Seq<usize>, g: int| listed_within(table@, open0, m, g) implies listed_within(table@, open@, m, g) || m == b by {
                lemma_within_remove(table@, open0, j as int, m, g);
            }
            assert(ids_ok(table@, open@)) by {
                assert forall|k: int| 0 <= k < open@.len() implies #[trigger] open@[k] < table@.len() by {
                    if k < j { assert(open@[k] == open0[k]); } else { assert(open@[k] == open0[k + 1]); }
                }
            }
            if !done.contains(b) {
                assert forall|path: Seq<Seq<usize>>| #[trigger] is_path(path, s) && path[0] == st && path.last() == b
                    implies gcur <= path.len() - 1 by {
                    lemma_pop_is_optimal(table@, open0, done, moves_to, st, gl, s, j as int, path);
                }
            }
            if st == gl {
                assert(node_ok(table@, 0, st, gl, size));
                lemma_zero_iff_goal(b, gl, s);
            }
        }
        if table[cur].h == 0 {
            proof { lemma_zero_iff_goal(b, gl, s); }
            let path = reconstruct_path(&table, cur, Ghost(st), Ghost(gl), Ghost(size));
            proof {
                assert forall|q: Seq<Seq<usize>>| #[trigger] is_solution(q, st, gl, s) implies path@.len() <= q.len() by {
                    assert(is_path(q, s) && q[0] == st && q.last() == b);
                }
            }
            return Ok(Some(path));
        }
        if is_listed(&table, &closed, &table[cur].state) {
            proof {
                assert(done.contains(b));
                assert forall|x: Seq<usize>, m: Seq<usize>| done.contains(x) && #[trigger] is_move(x, m, s)
                    implies done.contains(m) || listed_within(table@, open@, m, moves_to[x] + 1) by {
                    assert(done.contains(m) || listed_within(table@, open0, m, moves_to[x] + 1));
                }
            }
            continue;
        }
        proof {
            lemma_zero_iff_goal(b, gl, s);
            assert(!done.contains(b));
            lemma_board_count(done.insert(b), n as int);
        }
        let ghost done0 = done;
        let ghost moves_to0 = moves_to;
        let ghost closed0 = closed@;
        closed.push(cur);
        proof {
            done = done.insert(b);
            moves_to = moves_to.insert(b, gcur);
            assert forall|m: Seq<usize>| #[trigger] done.contains(m) <==> listed(table@, closed@, m) by {
                lemma_listed_push(table@, closed0, cur, m);
            }
            assert forall|x: Seq<usize>, m: Seq<usize>| done0.contains(x) && #[trigger] is_move(x, m, s)
                implies done.contains(m) || listed_within(table@, open@, m, moves_to0[x] + 1) by {
                assert(done0.contains(m) || listed_within(table@, open0, m, moves_to0[x] + 1));
            }
        }
        let tl = table.len();
        let moves = table[cur].possible_moves(cur, goal);
        let ghost t0 = table@;
        let ghost o1 = open@;
        let ghost cur_node = table@[cur as int];
        let mut t: usize = 0;
        while t < moves.len()
            invariant
                is_board(st, s),
                is_board(gl, s),
                st == start@,
                gl == goal@,
                s == size,
                n == st.len(),
                bound == power(n as int, n as nat),
                tl == t0.len(),
                cur < t0.len(),
                cur_node == t0[cur as int],
                cur_node.wf(gl),
                cur_node.size == size,
                cur_node.g <= cur,
                gcur == cur_node.g,
                b == cur_node.state@,
                b != gl,
                done == done0.insert(b),
                moves_to == moves_to0.insert(b, gcur),
                moves_to0.dom() == done0,
                done.finite(),
                done.len() == closed@.len(),
                closed@.len() <= bound,
                forall|m: Seq<usize>| #[trigger] done0.contains(m) ==> is_board(m, s) && no_shorter_path(st, m, s, moves_to0[m]),
                no_shorter_path(st, b, s, gcur),
                !done0.contains(gl),
                forall|x: Seq<usize>, m: Seq<usize>| done0.contains(x) && #[trigger] is_move(x, m, s)
                    ==> done.contains(m) || listed_within(t0, o1, m, moves_to0[x] + 1),
                done.contains(st) || listed_within(t0, o1, st, 0),
                ids_ok(t0, o1),
                table_ok(table@, st, gl, size),
                extends(table@, t0),
                extends(open@, o1),
                ids_ok(table@, open@),
                ids_ok(table@, closed@),
                forall|m: Seq<usize>| #[trigger] done.contains(m) <==> listed(table@, closed@, m),
                forall|k: int| 0 <= k < moves@.len() ==> {
                    &&& (#[trigger] moves@[k]).wf(gl)
                    &&& moves@[k].size == size
                    &&& adjacent(s, cur_node.empty_pos as int, moves@[k].empty_pos as int)
                    &&& moves@[k].state@ == swapped(b, cur_node.empty_pos as int, moves@[k].empty_pos as int)
                    &&& moves@[k].parent == Some(cur)
                    &&& moves@[k].g == cur_node.g + 1
                },
                forall|q: int| adjacent(s, cur_node.empty_pos as int, q) ==>
                    exists|k: int| 0 <= k < moves@.len() && (#[trigger] moves@[k]).empty_pos == q,
                t <= moves@.len(),
                forall|k: int| 0 <= k < t ==> done.contains((#[trigger] moves@[k]).state@)
                    || listed_within(table@, open@, moves@[k].state@, gcur + 1),
            decreases moves@.len() - t,
        {
            let next = moves[t].copy();
            let ghost tab1 = table@;
            let ghost op1 = open@;
            let in_closed = is_listed(&table, &closed, &next.state);
            if !in_closed && !listed_no_worse(&table, &open, &next.state, next.g) {
                let id = table.len();
                table.push(next);
                open.push(id);
                proof {
                    assert(node_ok(table@, id as int, st, gl, size)) by {
                        assert(table@[cur as int] == cur_node);
                        assert(is_move(b, moves@[t as int].state@, s)) by {
                            assert(adjacent(s, cur_node.empty_pos as int, moves@[t as int].empty_pos as int));
                        }
                    }
                    assert forall|i: int| 0 <= i < table@.len() implies #[trigger] node_ok(table@, i, st, gl, size) by {
                        if i < id {
                            assert(node_ok(tab1, i, st, gl, size));
                            let nd = tab1[i];
                            if nd.parent is Some {
                                assert(table@[nd.parent->0 as int] == tab1[nd.parent->0 as int]);
                            }
                        }
                    }
                    assert(ids_ok(table@, open@));
                    assert(ids_ok(table@, closed@));
                    assert forall|m: Seq<usize>| #[trigger] done.contains(m) <==> listed(table@, closed@, m) by {
                        lemma_listed_grow(tab1, closed@, table@, closed@, m);
                    }
                    assert forall|k: int| 0 <= k < t + 1 implies done.contains((#[trigger] moves@[k]).state@)
                        || listed_within(table@, open@, moves@[k].state@, gcur + 1) by {
                        if k < t {
                            if !done.contains(moves@[k].state@) {
                                lemma_within_grow(tab1, op1, table@, op1, moves@[k].state@, gcur + 1);
                                lemma_within_push(table@, op1, id, moves@[k].state@, gcur + 1);
                            }
                        } else {
                            assert(table@[id as int].state@ == moves@[k].state@);
                            lemma_within_push(table@, op1, id, moves@[k].state@, gcur + 1);
                        }
                    }
                }
            } else {
                proof {
                    let m = moves@[t as int].state@;
                    if !in_closed {
                        let k = choose|k: int| 0 <= k < open@.len() && #[trigger] board_at(table@, open@, k) == m
                            && table@[open@[k] as int].g <= next.g;
                        assert(listed_within(table@, open@, m, gcur + 1));
                    }
                }
            }
            t = t + 1;
        }
        proof {
            let ep = cur_node.empty_pos as int;
            assert forall|m: Seq<usize>| #[trigger] done.contains(m) implies is_board(m, s) && no_shorter_path(st, m, s, moves_to[m]) by {
                if m == b {
                    assert(cur_node.wf(gl));
                }
            }
            assert forall|x: Seq<usize>, m: Seq<usize>| done.contains(x) && #[trigger] is_move(x, m, s)
                implies done.contains(m) || listed_within(table@, open@, m, moves_to[x] + 1) by {
                if x == b {
                    let (p, q) = choose|p: int, q: int|
                        adjacent(s, p, q) && x.len() == s * s && x[p] == BLANK && m == #[trigger] swapped(x, p, q);
                    assert(p == ep) by {
                        if p != ep {
                            assert(b[p] != b[ep]);
                        }
                    }
                    let k = choose|k: int| 0 <= k < moves@.len() && (#[trigger] moves@[k]).empty_pos == q;
                    assert(moves@[k].state@ == m);
                } else {
                    assert(done0.contains(x));
                    if !done.contains(m) {
                        lemma_within_grow(t0, o1, table@, open@, m, moves_to0[x] + 1);
                    }
                }
            }
            if !done.contains(st) {
                lemma_within_grow(t0, o1, table@, open@, st, 0);
            }
        }
    }
    proof {
        if reachable(st, gl, s) {
            let path = choose|path: Seq<Seq<usize>>| #[trigger] is_path(path, s) && path[0] == st && path.last() == gl;
            assert forall|x: Seq<usize>, m: Seq<usize>| done.contains(x) && #[trigger] is_move(x, m, s) implies done.contains(m) by {
                if !done.contains(m) {
                    assert(listed_within(table@, open@, m, moves_to[x] + 1));
                }
            }
            lemma_closed_world(done, s, path);
            assert(done.contains(path[path.len() - 1]));
        }
    }
    Ok(None)
}

} // verus!
