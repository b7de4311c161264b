//! The region resolver: a flood fill from a seed cell through neighbours of
//! the seed's colour.

use crate::board::Board;
use crate::grid::{
    adjacent, color_at, component, connected, in_bounds, is_listing, is_walk,
    lemma_connected_same_color, lemma_connected_step, lemma_connected_to_itself, precedes,
};
use vstd::prelude::*;

verus! {

/// The marker matrix that a vector of rows stands for.
spec fn flags(rows: Seq<Vec<bool>>) -> Seq<Seq<bool>> {
    Seq::new(rows.len(), |r: int| rows[r]@)
}

/// `m` has `n` rows of `n` markers each.
spec fn is_square(m: Seq<Seq<bool>>, n: usize) -> bool {
    &&& m.len() == n
    &&& forall|r: int| 0 <= r < n ==> (#[trigger] m[r]).len() == n
}

/// The cell at `p` is marked.
spec fn marked(m: Seq<Seq<bool>>, p: (usize, usize)) -> bool {
    m[p.0 as int][p.1 as int]
}

/// An `n` by `n` marker matrix with no cell marked.
fn blank(n: usize) -> (marks: Vec<Vec<bool>>)
    ensures
        is_square(flags(marks@), n),
        forall|p: (usize, usize)| p.0 < n && p.1 < n ==> !marked(flags(marks@), p),
{
    let mut marks: Vec<Vec<bool>> = Vec::new();
    let mut r: usize = 0;
    while r < n
        invariant
            r <= n,
            marks.len() == r,
            forall|i: int| 0 <= i < r ==> (#[trigger] marks[i]).len() == n,
            forall|i: int, j: int| 0 <= i < r && 0 <= j < n ==> !#[trigger] marks[i][j],
        decreases n - r,
    {
        let mut row: Vec<bool> = Vec::new();
        let mut c: usize = 0;
        while c < n
            invariant
                c <= n,
                row.len() == c,
                forall|j: int| 0 <= j < c ==> !#[trigger] row[j],
            decreases n - c,
        {
            row.push(false);
            c += 1;
        }
        marks.push(row);
        r += 1;
    }
    marks
}

/// The marked cells in row-major order.
fn marked_cells(marks: &Vec<Vec<bool>>, n: usize) -> (cells: Vec<(usize, usize)>)
    requires
        is_square(flags(marks@), n),
    ensures
        forall|i: int, j: int|
            0 <= i < j < cells.len() ==> precedes(#[trigger] cells[i], #[trigger] cells[j]),
        forall|p: (usize, usize)|
            cells@.contains(p) <==> p.0 < n && p.1 < n && marked(flags(marks@), p),
{
    let ghost m = flags(marks@);
    let mut cells: Vec<(usize, usize)> = Vec::new();
    let mut r: usize = 0;
    while r < n
        invariant
            r <= n,
            m == flags(marks@),
            is_square(m, n),
            forall|i: int, j: int|
                0 <= i < j < cells.len() ==> precedes(#[trigger] cells[i], #[trigger] cells[j]),
            forall|i: int| 0 <= i < cells.len() ==> (#[trigger] cells[i]).0 < r,
            forall|i: int|
                0 <= i < cells.len() ==> (#[trigger] cells[i]).1 < n && marked(m, cells[i]),
            forall|p: (usize, usize)| p.0 < r && p.1 < n && marked(m, p) ==> cells@.contains(p),
        decreases n - r,
    {
        let mut c: usize = 0;
        while c < n
            invariant
                r < n,
                c <= n,
                m == flags(marks@),
                is_square(m, n),
                forall|i: int, j: int|
                    0 <= i < j < cells.len() ==> precedes(#[trigger] cells[i], #[trigger] cells[j]),
                forall|i: int|
                    0 <= i < cells.len() ==> precedes(#[trigger] cells[i], (r, c)),
                forall|i: int|
                    0 <= i < cells.len() ==> (#[trigger] cells[i]).1 < n && marked(m, cells[i]),
                forall|p: (usize, usize)|
                    precedes(p, (r, c)) && p.1 < n && marked(m, p) ==> cells@.contains(p),
            decreases n - c,
        {
            assert(m[r as int].len() == n);
            if marks[r][c] {
                let ghost before = cells@;
                cells.push((r, c));
                assert(cells@[before.len() as int] == (r, c));
                assert forall|p: (usize, usize)|
                    precedes(p, (r, (c + 1) as usize)) && p.1 < n && marked(
                        m,
                        p,
                    ) implies cells@.contains(p) by {
                    if p == (r, c) {
                    } else {
                        assert(precedes(p, (r, c)));
                        assert(before.contains(p));
                        let i = choose|i: int| 0 <= i < before.len() && before[i] == p;
                        assert(cells@[i] == p);
                    }
                }
            }
            c += 1;
        }
        r += 1;
    }
    assert forall|p: (usize, usize)| cells@.contains(p) implies p.0 < n && p.1 < n && marked(
        m,
        p,
    ) by {
        let i = choose|i: int| 0 <= i < cells.len() && cells[i] == p;
        assert(cells[i].0 < r);
    }
    cells
}

/// The cells of row `r` in the columns below `w`.
spec fn strip(r: usize, w: usize) -> Set<(usize, usize)> {
    Set::new(|p: (usize, usize)| p.0 == r && p.1 < w)
}

/// The cells in the rows below `h` and the columns below `w`.
spec fn block(h: usize, w: usize) -> Set<(usize, usize)> {
    Set::new(|p: (usize, usize)| p.0 < h && p.1 < w)
}

proof fn lemma_strip_finite(r: usize, w: usize)
    ensures
        strip(r, w).finite(),
    decreases w,
{
    if w == 0 {
        assert(strip(r, w) =~= Set::empty());
    } else {
        let v = (w - 1) as usize;
        lemma_strip_finite(r, v);
        assert(strip(r, w) =~= strip(r, v).insert((r, v)));
    }
}

proof fn lemma_block_finite(h: usize, w: usize)
    ensures
        block(h, w).finite(),
    decreases h,
{
    if h == 0 {
        assert(block(h, w) =~= Set::empty());
    } else {
        let k = (h - 1) as usize;
        lemma_block_finite(k, w);
        lemma_strip_finite(k, w);
        assert(block(h, w) =~= block(k, w).union(strip(k, w)));
    }
}

/// The cells of an `n` by `n` board that bear no mark.
spec fn unmarked(m: Seq<Seq<bool>>, n: usize) -> Set<(usize, usize)> {
    Set::new(|p: (usize, usize)| p.0 < n && p.1 < n && !marked(m, p))
}

proof fn lemma_unmarked_finite(m: Seq<Seq<bool>>, n: usize)
    ensures
        unmarked(m, n).finite(),
{
    lemma_block_finite(n, n);
    assert(unmarked(m, n).subset_of(block(n, n)));
    vstd::set_lib::lemma_set_subset_finite(block(n, n), unmarked(m, n));
}

/// How many entries of the stack are marked cells.
spec fn settled(stack: Seq<(usize, usize)>, m: Seq<Seq<bool>>) -> nat
    decreases stack.len(),
{
    if stack.len() == 0 {
        0
    } else {
        settled(stack.drop_last(), m) + if marked(m, stack.last()) {
            1nat
        } else {
            0nat
        }
    }
}

/// The cell at `p` is marked or waits on the stack.
spec fn awaited(m: Seq<Seq<bool>>, stack: Seq<(usize, usize)>, p: (usize, usize)) -> bool {
    marked(m, p) || stack.contains(p)
}

/// Every neighbour of `a` that belongs to the seed's region is marked or
/// waits on the stack.
spec fn tended(
    g: Seq<Seq<usize>>,
    seed: (usize, usize),
    m: Seq<Seq<bool>>,
    stack: Seq<(usize, usize)>,
    a: (usize, usize),
) -> bool {
    forall|b: (usize, usize)|
        in_bounds(g, b) && #[trigger] adjacent(a, b) && color_at(g, b) == color_at(g, seed)
            ==> awaited(m, stack, b)
}

/// What the fill keeps true while the neighbours of the cell `x` that it has
/// just marked are still being looked at.
spec fn fill_inv_but(
    g: Seq<Seq<usize>>,
    seed: (usize, usize),
    m: Seq<Seq<bool>>,
    stack: Seq<(usize, usize)>,
    x: (usize, usize),
) -> bool {
    &&& g.len() <= usize::MAX
    &&& is_square(m, g.len() as usize)
    &&& forall|i: int| 0 <= i < stack.len() ==> connected(g, seed, #[trigger] stack[i])
    &&& forall|p: (usize, usize)| in_bounds(g, p) && #[trigger] marked(m, p) ==> connected(g, seed, p)
    &&& awaited(m, stack, seed)
    &&& forall|a: (usize, usize)|
        a != x && in_bounds(g, a) && marked(m, a) ==> #[trigger] tended(g, seed, m, stack, a)
}

/// What the fill keeps true from one pop to the next.
spec fn fill_inv(
    g: Seq<Seq<usize>>,
    seed: (usize, usize),
    m: Seq<Seq<bool>>,
    stack: Seq<(usize, usize)>,
) -> bool {
    &&& g.len() <= usize::MAX
    &&& is_square(m, g.len() as usize)
    &&& forall|i: int| 0 <= i < stack.len() ==> connected(g, seed, #[trigger] stack[i])
    &&& forall|p: (usize, usize)| in_bounds(g, p) && #[trigger] marked(m, p) ==> connected(g, seed, p)
    &&& awaited(m, stack, seed)
    &&& forall|a: (usize, usize)|
        in_bounds(g, a) && marked(m, a) ==> #[trigger] tended(g, seed, m, stack, a)
}

proof fn lemma_push_keeps<A>(s: Seq<A>, a: A)
    ensures
        s.push(a).contains(a),
        forall|q: A| s.contains(q) ==> s.push(a).contains(q),
{
    assert(s.push(a)[s.len() as int] == a);
    assert forall|q: A| s.contains(q) implies s.push(a).contains(q) by {
        let i = choose|i: int| 0 <= i < s.len() && s[i] == q;
        assert(s.push(a)[i] == q);
    }
}

proof fn lemma_settled_push(s: Seq<(usize, usize)>, m: Seq<Seq<bool>>, p: (usize, usize))
    ensures
        settled(s.push(p), m) == settled(s, m) + if marked(m, p) {
            1nat
        } else {
            0nat
        },
{
    assert(s.push(p).drop_last() =~= s);
}

/// Popping the cell `x` and marking it.
proof fn lemma_pop_and_mark(
    g: Seq<Seq<usize>>,
    seed: (usize, usize),
    m0: Seq<Seq<bool>>,
    m1: Seq<Seq<bool>>,
    s0: Seq<(usize, usize)>,
    x: (usize, usize),
)
    requires
        fill_inv(g, seed, m0, s0),
        s0.len() > 0,
        x == s0.last(),
        in_bounds(g, x),
        is_square(m1, g.len() as usize),
        marked(m1, x),
        forall|p: (usize, usize)| in_bounds(g, p) && p != x ==> marked(m1, p) == marked(m0, p),
    ensures
        fill_inv_but(g, seed, m1, s0.drop_last(), x),
        !marked(m0, x) ==> unmarked(m1, g.len() as usize).len() < unmarked(
            m0,
            g.len() as usize,
        ).len(),
        marked(m0, x) ==> m1 == m0 && settled(s0.drop_last(), m1) + 1 == settled(s0, m0),
{
    let n = g.len() as usize;
    let s1 = s0.drop_last();
    assert forall|q: (usize, usize)| s0.contains(q) && q != x implies s1.contains(q) by {
        let i = choose|i: int| 0 <= i < s0.len() && s0[i] == q;
        assert(s1[i] == q);
    }
    assert forall|i: int| 0 <= i < s1.len() implies connected(g, seed, #[trigger] s1[i]) by {
        assert(s1[i] == s0[i]);
    }
    assert(connected(g, seed, s0[s0.len() - 1]));
    assert forall|p: (usize, usize)| in_bounds(g, p) && #[trigger] marked(m1, p) implies connected(
        g,
        seed,
        p,
    ) by {
        if p != x {
            assert(marked(m0, p));
        }
    }
    assert(awaited(m1, s1, seed)) by {
        lemma_connected_same_color(g, seed, x);
        if seed != x {
            assert(awaited(m0, s0, seed));
        }
    }
    assert forall|a: (usize, usize)| a != x && in_bounds(g, a) && marked(m1, a) implies #[trigger] tended(
        g,
        seed,
        m1,
        s1,
        a,
    ) by {
        assert(marked(m0, a));
        assert(tended(g, seed, m0, s0, a));
        assert forall|b: (usize, usize)|
            in_bounds(g, b) && #[trigger] adjacent(a, b) && color_at(g, b) == color_at(
                g,
                seed,
            ) implies awaited(m1, s1, b) by {
            assert(awaited(m0, s0, b));
        }
    }
    if marked(m0, x) {
        assert forall|r: int| 0 <= r < n implies #[trigger] m1[r] =~= m0[r] by {
            assert(m1[r].len() == n);
            assert(m0[r].len() == n);
            assert forall|c: int| 0 <= c < n implies m1[r][c] == m0[r][c] by {
                let p = (r as usize, c as usize);
                assert(in_bounds(g, p));
                assert(marked(m1, p) == marked(m0, p));
            }
        }
        assert(m1 =~= m0);
    } else {
        lemma_unmarked_finite(m0, n);
        assert(unmarked(m0, n).contains(x));
        assert(unmarked(m1, n) =~= unmarked(m0, n).remove(x));
    }
}

/// Pushes the cell at `r`, `c`, a neighbour of the cell `x` that was marked
/// last, if it has the seed's colour and no mark yet.
fn offer(
    board: &Board,
    marks: &Vec<Vec<bool>>,
    stack: &mut Vec<(usize, usize)>,
    r: usize,
    c: usize,
    color: usize,
    Ghost(seed): Ghost<(usize, usize)>,
    Ghost(x): Ghost<(usize, usize)>,
)
    requires
        board.wf(),
        fill_inv_but(board@, seed, flags(marks@), old(stack)@, x),
        in_bounds(board@, (r, c)),
        connected(board@, seed, x),
        adjacent(x, (r, c)),
        color == color_at(board@, seed),
    ensures
        fill_inv_but(board@, seed, flags(marks@), final(stack)@, x),
        color_at(board@, (r, c)) == color ==> awaited(flags(marks@), final(stack)@, (r, c)),
        forall|p: (usize, usize)|
            awaited(flags(marks@), old(stack)@, p) ==> awaited(flags(marks@), final(stack)@, p),
        settled(final(stack)@, flags(marks@)) == settled(old(stack)@, flags(marks@)),
{
    let ghost g = board@;
    let ghost m = flags(marks@);
    assert(m[r as int].len() == g.len());
    if board.get_color(r, c) == color && !marks[r][c] {
        stack.push((r, c));
        proof {
            let s = old(stack)@;
            let t = stack@;
            lemma_push_keeps(s, (r, c));
            lemma_settled_push(s, m, (r, c));
            lemma_connected_step(g, seed, x, (r, c));
            assert forall|i: int| 0 <= i < t.len() implies connected(g, seed, #[trigger] t[i]) by {
                if i < s.len() {
                    assert(t[i] == s[i]);
                }
            }
            assert forall|a: (usize, usize)|
                a != x && in_bounds(g, a) && marked(m, a) implies #[trigger] tended(
                g,
                seed,
                m,
                t,
                a,
            ) by {
                assert(tended(g, seed, m, s, a));
                assert forall|b: (usize, usize)|
                    in_bounds(g, b) && #[trigger] adjacent(a, b) && color_at(g, b) == color_at(
                        g,
                        seed,
                    ) implies awaited(m, t, b) by {
                    assert(awaited(m, s, b));
                }
            }
        }
    }
}

/// Once the stack is empty, every cell of a walk from the seed is marked.
proof fn lemma_walk_is_marked(
    g: Seq<Seq<usize>>,
    seed: (usize, usize),
    m: Seq<Seq<bool>>,
    w: Seq<(usize, usize)>,
    i: int,
)
    requires
        fill_inv(g, seed, m, Seq::empty()),
        is_walk(g, w),
        w[0] == seed,
        0 <= i < w.len(),
    ensures
        marked(m, w[i]),
    decreases i,
{
    if i > 0 {
        lemma_walk_is_marked(g, seed, m, w, i - 1);
        assert(in_bounds(g, w[i - 1]));
        assert(tended(g, seed, m, Seq::empty(), w[i - 1]));
        assert(adjacent(w[i - 1], w[i]));
        assert(in_bounds(g, w[i]));
        assert(awaited(m, Seq::empty(), w[i]));
    } else {
        assert(awaited(m, Seq::empty(), seed));
    }
}

/// The region that a fill from the cell at `row`, `col` covers: every cell
/// that can be reached from it by steps up, down, left or right through
/// cells of its colour, listed in row-major order.
pub fn resolve(board: &Board, row: usize, col: usize) -> (region: Vec<(usize, usize)>)
    requires
        board.wf(),
        row < board@.len(),
        col < board@.len(),
    ensures
        is_listing(region@, component(board@, (row, col))),
        region@.contains((row, col)),
        forall|i: int|
            0 <= i < region.len() ==> in_bounds(board@, #[trigger] region[i]) && color_at(
                board@,
                region[i],
            ) == color_at(board@, (row, col)),
{
    let n = board.size();
    let color = board.get_color(row, col);
    let ghost g = board@;
    let ghost seed = (row, col);
    let mut marks = blank(n);
    let mut stack: Vec<(usize, usize)> = Vec::new();
    stack.push((row, col));
    proof {
        lemma_connected_to_itself(g, seed);
        assert(stack@[0] == seed);
        assert(fill_inv(g, seed, flags(marks@), stack@));
    }
    while stack.len() > 0
        invariant
            board.wf(),
            g == board@,
            n == g.len(),
            in_bounds(g, seed),
            color == color_at(g, seed),
            fill_inv(g, seed, flags(marks@), stack@),
        decreases unmarked(flags(marks@), n).len(), settled(stack@, flags(marks@)),
    {
        let ghost m0 = flags(marks@);
        let ghost s0 = stack@;
        let (r, c) = stack.pop().unwrap();
        let ghost x = (r, c);
        proof {
            assert(connected(g, seed, s0[s0.len() - 1]));
            lemma_connected_same_color(g, seed, x);
            assert(m0[r as int].len() == n);
        }
        marks[r][c] = true;
        let ghost m1 = flags(marks@);
        proof {
            assert forall|i: int| 0 <= i < n implies (#[trigger] m1[i]).len() == n by {
                assert(m0[i].len() == n);
            }
            lemma_pop_and_mark(g, seed, m0, m1, s0, x);
        }
        if r > 0 {
            offer(board, &marks, &mut stack, r - 1, c, color, Ghost(seed), Ghost(x));
        }
        if r + 1 < n {
            offer(board, &marks, &mut stack, r + 1, c, color, Ghost(seed), Ghost(x));
        }
        if c > 0 {
            offer(board, &marks, &mut stack, r, c - 1, color, Ghost(seed), Ghost(x));
        }
        if c + 1 < n {
            offer(board, &marks, &mut stack, r, c + 1, color, Ghost(seed), Ghost(x));
        }
        proof {
            let s = stack@;
            assert forall|b: (usize, usize)|
                in_bounds(g, b) && #[trigger] adjacent(x, b) && color_at(g, b) == color_at(
                    g,
                    seed,
                ) implies awaited(m1, s, b) by {
                if b.0 + 1 == x.0 {
                    assert(b == ((r - 1) as usize, c));
                } else if x.0 + 1 == b.0 {
                    assert(b == ((r + 1) as usize, c));
                } else if b.1 + 1 == x.1 {
                    assert(b == (r, (c - 1) as usize));
                } else {
                    assert(b == (r, (c + 1) as usize));
                }
            }
            assert(tended(g, seed, m1, s, x));
            assert(fill_inv(g, seed, m1, s));
        }
    }
    let region = marked_cells(&marks, n);
    proof {
        let m = flags(marks@);
        assert(stack@ =~= Seq::empty());
        assert(marked(m, seed));
        assert forall|p: (usize, usize)| region@.contains(p) <==> component(g, seed).contains(
            p,
        ) by {
            if connected(g, seed, p) {
                let w = choose|w: Seq<(usize, usize)>| #[trigger]
                    is_walk(g, w) && w[0] == seed && w.last() == p;
                lemma_walk_is_marked(g, seed, m, w, w.len() - 1);
            }
        }
        lemma_connected_to_itself(g, seed);
        assert forall|i: int| 0 <= i < region.len() implies in_bounds(g, #[trigger] region[i])
            && color_at(g, region[i]) == color_at(g, seed) by {
            assert(region@.contains(region[i]));
            lemma_connected_same_color(g, seed, region[i]);
        }
    }
    region
}

} // verus!
