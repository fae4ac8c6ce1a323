//! Boards, legal blank moves and reachability, as mathematical objects.
use vstd::prelude::*;

verus! {

/// The blank tile.
pub const BLANK: usize = 0;

/// `v` occurs somewhere on board `b`.
pub open spec fn has_tile(b: Seq<usize>, v: int) -> bool {
    exists|i: int| 0 <= i < b.len() && b[i] == v
}

/// `b` is a board of side `s`: a row-major permutation of `0..s*s`.
pub open spec fn is_board(b: Seq<usize>, s: int) -> bool {
    &&& s >= 1
    &&& b.len() == s * s
    &&& forall|i: int| 0 <= i < b.len() ==> #[trigger] b[i] < b.len()
    &&& forall|i: int, j: int| 0 <= i < b.len() && 0 <= j < b.len() && i != j ==> #[trigger] b[i] != #[trigger] b[j]
    &&& forall|v: int| 0 <= v < b.len() ==> #[trigger] has_tile(b, v)
}

/// Cell `q` is a legal destination for a blank sitting at cell `p` of a side-`s` board.
pub open spec fn adjacent(s: int, p: int, q: int) -> bool {
    &&& s >= 1
    &&& 0 <= p < s * s
    &&& 0 <= q < s * s
    &&& {
        ||| (p % s > 0 && q == p - 1)
        ||| (p % s < s - 1 && q == p + 1)
        ||| (p >= s && q == p - s)
        ||| (p + s < s * s && q == p + s)
    }
}

/// `b` with the contents of cells `p` and `q` exchanged.
pub open spec fn swapped(b: Seq<usize>, p: int, q: int) -> Seq<usize> {
    b.update(p, b[q]).update(q, b[p])
}

/// `b` follows from `a` by sliding the blank into one neighbouring cell.
pub open spec fn is_move(a: Seq<usize>, b: Seq<usize>, s: int) -> bool {
    exists|p: int, q: int|
        adjacent(s, p, q) && a.len() == s * s && a[p] == BLANK && b == #[trigger] swapped(a, p, q)
}

/// Every board of `path` follows from the one before it by one move.
pub open spec fn is_path(path: Seq<Seq<usize>>, s: int) -> bool {
    &&& path.len() >= 1
    &&& forall|i: int| 0 <= i < path.len() - 1 ==> is_move(#[trigger] path[i], path[i + 1], s)
}

/// Some sequence of moves leads from `a` to `b`.
pub open spec fn reachable(a: Seq<usize>, b: Seq<usize>, s: int) -> bool {
    exists|path: Seq<Seq<usize>>| #[trigger] is_path(path, s) && path[0] == a && path.last() == b
}


/// `f` takes value `v` somewhere on `0..n`.
pub open spec fn hits(f: spec_fn(int) -> int, n: int, v: int) -> bool {
    exists|i: int| 0 <= i < n && #[trigger] f(i) == v
}

/// A map from `0..n` into `0..n` that takes no value twice takes every value.
pub proof fn lemma_injective_covers(f: spec_fn(int) -> int, n: int)
    requires
        n >= 0,
        forall|i: int| 0 <= i < n ==> 0 <= #[trigger] f(i) < n,
        forall|i: int, j: int| 0 <= i < n && 0 <= j < n && i != j ==> #[trigger] f(i) != #[trigger] f(j),
    ensures
        forall|v: int| 0 <= v < n ==> #[trigger] hits(f, n, v),
{
    let cells = vstd::set_lib::set_int_range(0, n);
    let values = cells.map(f);
    vstd::set_lib::lemma_int_range(0, n);
    assert(vstd::relations::injective_on(f, cells)) by {
        assert forall|i: int, j: int| cells.contains(i) && cells.contains(j) && #[trigger] f(i) == #[trigger] f(j) implies i == j by {}
    }
    vstd::set_lib::lemma_map_size(cells, values, f);
    assert(values.subset_of(cells)) by {
        assert forall|v: int| values.contains(v) implies cells.contains(v) by {
            let i = choose|i: int| cells.contains(i) && f(i) == v;
        }
    }
    vstd::set_lib::lemma_subset_equality(values, cells);
    assert forall|v: int| 0 <= v < n implies #[trigger] hits(f, n, v) by {
        assert(cells.contains(v));
        assert(values.contains(v));
    }
}

/// `n` cells holding distinct values below `n` hold every value below `n`.
pub proof fn lemma_distinct_covers(b: Seq<usize>)
    requires
        forall|i: int| 0 <= i < b.len() ==> #[trigger] b[i] < b.len(),
        forall|i: int, j: int| 0 <= i < b.len() && 0 <= j < b.len() && i != j ==> #[trigger] b[i] != #[trigger] b[j],
    ensures
        forall|v: int| 0 <= v < b.len() ==> #[trigger] has_tile(b, v),
{
    let f = |i: int| b[i] as int;
    assert forall|i: int, j: int| 0 <= i < b.len() && 0 <= j < b.len() && i != j implies #[trigger] f(i) != #[trigger] f(j) by {
        assert(b[i] != b[j]);
    }
    lemma_injective_covers(f, b.len() as int);
    assert forall|v: int| 0 <= v < b.len() implies #[trigger] has_tile(b, v) by {
        assert(hits(f, b.len() as int, v));
        let i = choose|i: int| 0 <= i < b.len() && #[trigger] f(i) == v;
        assert(b[i] == v);
    }
}

/// Swapping two cells of a board leaves a board.
pub proof fn lemma_swap_keeps_board(b: Seq<usize>, s: int, p: int, q: int)
    requires
        is_board(b, s),
        0 <= p < b.len(),
        0 <= q < b.len(),
    ensures
        is_board(swapped(b, p, q), s),
{
    let c = swapped(b, p, q);
    assert forall|i: int| 0 <= i < c.len() implies #[trigger] c[i] == b[if i == q { p } else if i == p { q } else { i }] by {}
    assert forall|i: int, j: int| 0 <= i < c.len() && 0 <= j < c.len() && i != j implies #[trigger] c[i] != #[trigger] c[j] by {
        let pi = if i == q { p } else if i == p { q } else { i };
        let pj = if j == q { p } else if j == p { q } else { j };
        assert(b[pi] != b[pj]);
    }
    assert forall|v: int| 0 <= v < c.len() implies #[trigger] has_tile(c, v) by {
        assert(has_tile(b, v));
        let i = choose|i: int| 0 <= i < b.len() && b[i] == v;
        let k = if i == q { p } else if i == p { q } else { i };
        assert(c[k] == v);
    }
}

/// A move can always be taken back.
pub proof fn lemma_move_reverses(a: Seq<usize>, b: Seq<usize>, s: int)
    requires
        is_move(a, b, s),
    ensures
        is_move(b, a, s),
{
    let (p, q) = choose|p: int, q: int|
        adjacent(s, p, q) && a.len() == s * s && a[p] == BLANK && b == #[trigger] swapped(a, p, q);
    assert(adjacent(s, q, p)) by {
        vstd::arithmetic::div_mod::lemma_fundamental_div_mod(p, s);
        if p % s > 0 && q == p - 1 {
            vstd::arithmetic::div_mod::lemma_fundamental_div_mod_converse(q, s, p / s, p % s - 1);
        } else if p % s < s - 1 && q == p + 1 {
            vstd::arithmetic::div_mod::lemma_fundamental_div_mod_converse(q, s, p / s, p % s + 1);
        }
    }
    assert(swapped(b, q, p) =~= a);
}

/// Moves taken back in reverse order lead back: reachability is symmetric.
pub proof fn lemma_reachable_symmetric(a: Seq<usize>, b: Seq<usize>, s: int)
    requires
        reachable(a, b, s),
    ensures
        reachable(b, a, s),
{
    let path = choose|path: Seq<Seq<usize>>| #[trigger] is_path(path, s) && path[0] == a && path.last() == b;
    let n = path.len();
    let back = Seq::new(n, |i: int| path[n - 1 - i]);
    assert forall|i: int| 0 <= i < back.len() - 1 implies is_move(#[trigger] back[i], back[i + 1], s) by {
        assert(is_move(path[n - 2 - i], path[(n - 2 - i) + 1], s));
        lemma_move_reverses(path[n - 2 - i], path[n - 1 - i], s);
    }
    assert(is_path(back, s) && back[0] == b && back.last() == a);
}

/// `n` to the power `e`.
pub open spec fn power(n: int, e: nat) -> int
    decreases e,
{
    if e == 0 { 1 } else { n * power(n, (e - 1) as nat) }
}

/// `b` read as a number written in base `n`, least significant cell first.
pub open spec fn encode(b: Seq<usize>, n: int) -> int
    decreases b.len(),
{
    if b.len() == 0 { 0 } else { b[0] + n * encode(b.drop_first(), n) }
}

/// A sequence of digits below `n` encodes to a number below `n` to the power of its length.
pub proof fn lemma_encode_bound(b: Seq<usize>, n: int)
    requires
        n >= 1,
        forall|i: int| 0 <= i < b.len() ==> b[i] < n,
    ensures
        0 <= encode(b, n) < power(n, b.len()),
    decreases b.len(),
{
    if b.len() > 0 {
        let t = b.drop_first();
        assert forall|i: int| 0 <= i < t.len() implies t[i] < n by { assert(t[i] == b[i + 1]); }
        lemma_encode_bound(t, n);
        let e = encode(t, n);
        let pw = power(n, t.len());
        assert(b[0] + n * e < n * pw) by (nonlinear_arith) requires 0 <= b[0] < n, 0 <= e < pw, n >= 1;
        assert(0 <= b[0] + n * e) by (nonlinear_arith) requires 0 <= b[0], 0 <= e, n >= 1;
    }
}

/// Two digit sequences of one length below `n` with the same encoding are equal.
pub proof fn lemma_encode_injective(a: Seq<usize>, b: Seq<usize>, n: int)
    requires
        n >= 1,
        a.len() == b.len(),
        forall|i: int| 0 <= i < a.len() ==> a[i] < n,
        forall|i: int| 0 <= i < b.len() ==> b[i] < n,
        encode(a, n) == encode(b, n),
    ensures
        a == b,
    decreases a.len(),
{
    if a.len() > 0 {
        let ta = a.drop_first();
        let tb = b.drop_first();
        assert forall|i: int| 0 <= i < ta.len() implies ta[i] < n by { assert(ta[i] == a[i + 1]); }
        assert forall|i: int| 0 <= i < tb.len() implies tb[i] < n by { assert(tb[i] == b[i + 1]); }
        lemma_encode_bound(ta, n);
        lemma_encode_bound(tb, n);
        let ea = encode(ta, n);
        let eb = encode(tb, n);
        let x = a[0] as int;
        let y = b[0] as int;
        assert(x == y && ea == eb) by (nonlinear_arith)
            requires 0 <= x < n, 0 <= y < n, 0 <= ea, 0 <= eb, x + n * ea == y + n * eb;
        lemma_encode_injective(ta, tb, n);
        assert forall|i: int| 0 <= i < a.len() implies a[i] == b[i] by {
            if i > 0 {
                assert(a[i] == ta[i - 1] && b[i] == tb[i - 1]);
            }
        }
        assert(a =~= b);
    }
}

/// There are at most `n` to the power `n` distinct boards of `n` cells.
pub proof fn lemma_board_count(boards: Set<Seq<usize>>, n: int)
    requires
        n >= 1,
        boards.finite(),
        forall|b: Seq<usize>| #[trigger] boards.contains(b) ==> b.len() == n
            && forall|i: int| 0 <= i < b.len() ==> b[i] < n,
    ensures
        boards.len() <= power(n, n as nat),
{
    let f = |b: Seq<usize>| encode(b, n);
    let codes = boards.map(f);
    assert(vstd::relations::injective_on(f, boards)) by {
        assert forall|a: Seq<usize>, b: Seq<usize>| boards.contains(a) && boards.contains(b) && #[trigger] f(a) == #[trigger] f(b) implies a == b by {
            lemma_encode_injective(a, b, n);
        }
    }
    vstd::set_lib::lemma_map_size(boards, codes, f);
    let range = vstd::set_lib::set_int_range(0, power(n, n as nat));
    assert(power(n, n as nat) >= 0) by { lemma_encode_bound(Seq::empty(), n); lemma_power_nonneg(n, n as nat); }
    vstd::set_lib::lemma_int_range(0, power(n, n as nat));
    assert forall|c: int| codes.contains(c) implies range.contains(c) by {
        let b = choose|b: Seq<usize>| boards.contains(b) && f(b) == c;
        lemma_encode_bound(b, n);
    }
    vstd::set_lib::lemma_len_subset(codes, range);
}

/// Powers of a positive number are positive.
proof fn lemma_power_nonneg(n: int, e: nat)
    requires
        n >= 1,
    ensures
        power(n, e) >= 1,
    decreases e,
{
    if e > 0 {
        lemma_power_nonneg(n, (e - 1) as nat);
        assert(n * power(n, (e - 1) as nat) >= 1) by (nonlinear_arith) requires n >= 1, power(n, (e - 1) as nat) >= 1;
    }
}

} // verus!
