//! The mathematical model of a board: a square matrix of colour indices,
//! walks through equally coloured neighbours, and the regions they span.

use vstd::prelude::*;

verus! {

/// `g` is a square matrix all of whose entries are colour indices below `k`.
pub open spec fn is_grid(g: Seq<Seq<usize>>, k: usize) -> bool {
    &&& forall|r: int| 0 <= r < g.len() ==> (#[trigger] g[r]).len() == g.len()
    &&& forall|r: int, c: int| 0 <= r < g.len() && 0 <= c < g.len() ==> #[trigger] g[r][c] < k
}

/// The position `p = (row, column)` lies on the grid.
pub open spec fn in_bounds(g: Seq<Seq<usize>>, p: (usize, usize)) -> bool {
    p.0 < g.len() && p.1 < g.len()
}

/// The colour of the cell at `p`.
pub open spec fn color_at(g: Seq<Seq<usize>>, p: (usize, usize)) -> usize {
    g[p.0 as int][p.1 as int]
}

/// `a` and `b` are neighbours: one step up, down, left or right apart.
pub open spec fn adjacent(a: (usize, usize), b: (usize, usize)) -> bool {
    ||| a.0 == b.0 && (a.1 + 1 == b.1 || b.1 + 1 == a.1)
    ||| a.1 == b.1 && (a.0 + 1 == b.0 || b.0 + 1 == a.0)
}

/// `w` is a non-empty walk on the grid: every cell lies on the grid and has
/// the colour of the first one, and each cell is a neighbour of the one before.
pub open spec fn is_walk(g: Seq<Seq<usize>>, w: Seq<(usize, usize)>) -> bool {
    &&& w.len() > 0
    &&& forall|i: int|
        0 <= i < w.len() ==> in_bounds(g, #[trigger] w[i]) && color_at(g, w[i]) == color_at(
            g,
            w[0],
        )
    &&& forall|i: int| 0 < i < w.len() ==> adjacent(w[i - 1], #[trigger] w[i])
}

/// Some walk leads from `a` to `b`.
pub open spec fn connected(g: Seq<Seq<usize>>, a: (usize, usize), b: (usize, usize)) -> bool {
    exists|w: Seq<(usize, usize)>| #[trigger] is_walk(g, w) && w[0] == a && w.last() == b
}

/// The region of `seed`: every cell that a walk from `seed` reaches.
pub open spec fn component(g: Seq<Seq<usize>>, seed: (usize, usize)) -> Set<(usize, usize)> {
    Set::new(|p: (usize, usize)| connected(g, seed, p))
}

/// Row-major order: `a` comes strictly before `b`.
pub open spec fn precedes(a: (usize, usize), b: (usize, usize)) -> bool {
    a.0 < b.0 || (a.0 == b.0 && a.1 < b.1)
}

/// `s` lists exactly the cells of `cells`, each once, in row-major order.
pub open spec fn is_listing(s: Seq<(usize, usize)>, cells: Set<(usize, usize)>) -> bool {
    &&& forall|i: int, j: int| 0 <= i < j < s.len() ==> precedes(#[trigger] s[i], #[trigger] s[j])
    &&& forall|p: (usize, usize)| s.contains(p) <==> cells.contains(p)
}

/// The grid `g` with every cell of `cells` recoloured to `color`.
pub open spec fn painted(g: Seq<Seq<usize>>, cells: Set<(usize, usize)>, color: usize) -> Seq<
    Seq<usize>,
> {
    Seq::new(
        g.len(),
        |r: int|
            Seq::new(
                g[r].len(),
                |c: int|
                    if cells.contains((r as usize, c as usize)) {
                        color
                    } else {
                        g[r][c]
                    },
            ),
    )
}

/// Every cell of the grid is connected to itself.
pub proof fn lemma_connected_to_itself(g: Seq<Seq<usize>>, a: (usize, usize))
    requires
        in_bounds(g, a),
    ensures
        connected(g, a, a),
{
    let w = seq![a];
    assert(is_walk(g, w));
    assert(w[0] == a && w.last() == a);
}

/// A walk can be extended by one step onto a neighbour of its last cell that
/// lies on the grid and has the colour of its first cell.
pub proof fn lemma_connected_step(
    g: Seq<Seq<usize>>,
    a: (usize, usize),
    b: (usize, usize),
    c: (usize, usize),
)
    requires
        connected(g, a, b),
        in_bounds(g, c),
        adjacent(b, c),
        color_at(g, c) == color_at(g, a),
    ensures
        connected(g, a, c),
{
    let w = choose|w: Seq<(usize, usize)>| #[trigger] is_walk(g, w) && w[0] == a && w.last() == b;
    let v = w.push(c);
    assert forall|i: int| 0 <= i < v.len() implies in_bounds(g, #[trigger] v[i]) && color_at(
        g,
        v[i],
    ) == color_at(g, v[0]) by {
        if i < w.len() {
            assert(v[i] == w[i]);
        }
    }
    assert forall|i: int| 0 < i < v.len() implies adjacent(v[i - 1], #[trigger] v[i]) by {
        if i < w.len() {
            assert(v[i] == w[i]);
            assert(v[i - 1] == w[i - 1]);
        } else {
            assert(v[i - 1] == w.last());
        }
    }
    assert(is_walk(g, v));
    assert(v[0] == a && v.last() == c);
}

/// Whatever is connected to a cell lies on the grid and has that cell's colour.
pub proof fn lemma_connected_same_color(g: Seq<Seq<usize>>, a: (usize, usize), b: (usize, usize))
    requires
        connected(g, a, b),
    ensures
        in_bounds(g, a),
        in_bounds(g, b),
        color_at(g, b) == color_at(g, a),
{
    let w = choose|w: Seq<(usize, usize)>| #[trigger] is_walk(g, w) && w[0] == a && w.last() == b;
    assert(in_bounds(g, w[0]));
    assert(in_bounds(g, w[w.len() - 1]));
}

/// The region of a cell holds the cell itself, and holds exactly the cells
/// that a walk from it reaches: each of them lies on the grid and has the
/// cell's colour, and no cell that such a walk reaches is left out.
pub proof fn lemma_region_of_seed(g: Seq<Seq<usize>>, seed: (usize, usize))
    requires
        in_bounds(g, seed),
    ensures
        component(g, seed).contains(seed),
        forall|p: (usize, usize)| component(g, seed).contains(p) <==> connected(g, seed, p),
        forall|p: (usize, usize)| #[trigger]
            component(g, seed).contains(p) ==> in_bounds(g, p) && color_at(g, p) == color_at(
                g,
                seed,
            ),
{
    lemma_connected_to_itself(g, seed);
    assert forall|p: (usize, usize)| #[trigger] component(g, seed).contains(p) implies in_bounds(
        g,
        p,
    ) && color_at(g, p) == color_at(g, seed) by {
        lemma_connected_same_color(g, seed, p);
    }
}

/// Every cell on a walk is connected to the walk's first cell.
pub proof fn lemma_walk_prefix(g: Seq<Seq<usize>>, w: Seq<(usize, usize)>, i: int)
    requires
        is_walk(g, w),
        0 <= i < w.len(),
    ensures
        connected(g, w[0], w[i]),
{
    let v = w.take(i + 1);
    assert forall|j: int| 0 <= j < v.len() implies in_bounds(g, #[trigger] v[j]) && color_at(
        g,
        v[j],
    ) == color_at(g, v[0]) by {
        assert(v[j] == w[j]);
        assert(v[0] == w[0]);
    }
    assert forall|j: int| 0 < j < v.len() implies adjacent(v[j - 1], #[trigger] v[j]) by {
        assert(v[j] == w[j]);
        assert(v[j - 1] == w[j - 1]);
    }
    assert(is_walk(g, v));
    assert(v[0] == w[0] && v.last() == w[i]);
}

/// A board of a single cell has a single region: that cell.
pub proof fn lemma_single_cell_region(g: Seq<Seq<usize>>, seed: (usize, usize))
    requires
        g.len() == 1,
        in_bounds(g, seed),
    ensures
        component(g, seed) == set![seed],
{
    lemma_region_of_seed(g, seed);
    assert(component(g, seed) =~= set![seed]);
}

/// Repainting the whole region of a cell leaves it in one piece: on the
/// repainted grid every cell of the former region has the new colour and is
/// still connected to the seed.
pub proof fn lemma_painted_region_stays_whole(
    g: Seq<Seq<usize>>,
    k: usize,
    seed: (usize, usize),
    color: usize,
)
    requires
        is_grid(g, k),
        in_bounds(g, seed),
    ensures
        component(g, seed).subset_of(component(painted(g, component(g, seed), color), seed)),
        forall|p: (usize, usize)| #[trigger]
            component(g, seed).contains(p) ==> color_at(
                painted(g, component(g, seed), color),
                p,
            ) == color,
{
    let region = component(g, seed);
    let h = painted(g, region, color);
    assert forall|p: (usize, usize)| #[trigger] region.contains(p) implies color_at(h, p)
        == color by {
        lemma_connected_same_color(g, seed, p);
        assert(g[p.0 as int].len() == g.len());
    }
    assert forall|p: (usize, usize)| region.contains(p) implies component(h, seed).contains(
        p,
    ) by {
        let w = choose|w: Seq<(usize, usize)>| #[trigger]
            is_walk(g, w) && w[0] == seed && w.last() == p;
        assert forall|i: int| 0 <= i < w.len() implies in_bounds(h, #[trigger] w[i]) && color_at(
            h,
            w[i],
        ) == color_at(h, w[0]) by {
            lemma_walk_prefix(g, w, i);
            lemma_walk_prefix(g, w, 0);
            assert(region.contains(w[i]));
            assert(region.contains(w[0]));
        }
        assert(is_walk(h, w));
    }
}

/// A set of cells has at most one listing.
pub proof fn lemma_listing_unique(
    s: Seq<(usize, usize)>,
    t: Seq<(usize, usize)>,
    cells: Set<(usize, usize)>,
)
    requires
        is_listing(s, cells),
        is_listing(t, cells),
    ensures
        s == t,
    decreases s.len(),
{
    if s.len() == 0 {
        if t.len() > 0 {
            assert(t.contains(t[0]));
            assert(s.contains(t[0]));
        }
        assert(s =~= t);
    } else {
        let a = s.last();
        assert(s.contains(a));
        assert(t.contains(a));
        let j = choose|j: int| 0 <= j < t.len() && t[j] == a;
        let b = t.last();
        assert(t.contains(b));
        assert(s.contains(b));
        let i = choose|i: int| 0 <= i < s.len() && s[i] == b;
        if j < t.len() - 1 {
            assert(precedes(t[j], t[t.len() - 1]));
            if i < s.len() - 1 {
                assert(precedes(s[i], s[s.len() - 1]));
            }
        }
        assert(a == b);
        let rest = cells.remove(a);
        let s1 = s.drop_last();
        let t1 = t.drop_last();
        assert forall|p: (usize, usize)| s1.contains(p) <==> rest.contains(p) by {
            if s1.contains(p) {
                let x = choose|x: int| 0 <= x < s1.len() && s1[x] == p;
                assert(s[x] == p);
                assert(precedes(s[x], s[s.len() - 1]));
                assert(s.contains(p));
            }
            if rest.contains(p) {
                assert(s.contains(p));
                let x = choose|x: int| 0 <= x < s.len() && s[x] == p;
                assert(s1[x] == p);
            }
        }
        assert forall|p: (usize, usize)| t1.contains(p) <==> rest.contains(p) by {
            if t1.contains(p) {
                let x = choose|x: int| 0 <= x < t1.len() && t1[x] == p;
                assert(t[x] == p);
                assert(precedes(t[x], t[t.len() - 1]));
                assert(t.contains(p));
            }
            if rest.contains(p) {
                assert(t.contains(p));
                let x = choose|x: int| 0 <= x < t.len() && t[x] == p;
                assert(t1[x] == p);
            }
        }
        assert forall|x: int, y: int| 0 <= x < y < s1.len() implies precedes(
            #[trigger] s1[x],
            #[trigger] s1[y],
        ) by {
            assert(precedes(s[x], s[y]));
        }
        assert forall|x: int, y: int| 0 <= x < y < t1.len() implies precedes(
            #[trigger] t1[x],
            #[trigger] t1[y],
        ) by {
            assert(precedes(t[x], t[y]));
        }
        lemma_listing_unique(s1, t1, rest);
        assert(s =~= s1.push(a));
        assert(t =~= t1.push(b));
    }
}

} // verus!
