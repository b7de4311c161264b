//! The pending action: a seed cell, a candidate colour, and the region that
//! a commit would repaint.

use crate::board::Board;
use crate::grid::{
    color_at, component, in_bounds, is_grid, is_listing, lemma_painted_region_stays_whole,
    lemma_region_of_seed, painted,
};
use crate::region::resolve;
use vstd::prelude::*;

verus! {

/// A flood of `color` that waits to be committed at the cell `row`, `col`.
#[derive(Clone, Debug)]
pub struct Action {
    /// The row of the seed cell.
    pub row: usize,
    /// The column of the seed cell.
    pub col: usize,
    /// The candidate colour.
    pub color: usize,
    /// The cells that a commit repaints.
    pub effected: Vec<(usize, usize)>,
}

/// The grid that committing `a` on `g` leaves: `g` itself where the seed
/// already has the candidate colour, else `g` with the cells of `a`
/// repainted.
pub open spec fn applied(g: Seq<Seq<usize>>, a: Action) -> Seq<Seq<usize>> {
    if a.color == color_at(g, (a.row, a.col)) {
        g
    } else {
        painted(g, a.effected@.to_set(), a.color)
    }
}

impl Action {
    /// The action can be committed on the grid `g` of `k` colours: its seed
    /// and its cells lie on the grid, and its colour is one of the `k`.
    pub open spec fn fits(&self, g: Seq<Seq<usize>>, k: usize) -> bool {
        &&& in_bounds(g, (self.row, self.col))
        &&& self.color < k
        &&& forall|i: int| 0 <= i < self.effected@.len() ==> in_bounds(g, #[trigger] self.effected@[i])
    }

    /// The cells of the action are the region of some cell of `g`.
    pub open spec fn spans_region(&self, g: Seq<Seq<usize>>) -> bool {
        exists|origin: (usize, usize)|
            in_bounds(g, origin) && is_listing(self.effected@, #[trigger] component(g, origin))
    }

    /// The action that the fill yields at `p` on `g`: seeded at `p`, with
    /// the colour that `p` has on `g`, over the region of `p`.
    pub open spec fn is_fresh(&self, g: Seq<Seq<usize>>, p: (usize, usize)) -> bool {
        &&& self.row == p.0
        &&& self.col == p.1
        &&& self.color == color_at(g, p)
        &&& is_listing(self.effected@, component(g, p))
    }

    /// The action seeded at `row`, `col` with the candidate `color`, over the
    /// region that a fill from the seed covers.
    pub fn new(board: &Board, row: usize, col: usize, color: usize) -> (action: Action)
        requires
            board.wf(),
            row < board@.len(),
            col < board@.len(),
            color < board.colors(),
        ensures
            action.row == row,
            action.col == col,
            action.color == color,
            is_listing(action.effected@, component(board@, (row, col))),
            action.fits(board@, board.colors()),
            action.spans_region(board@),
    {
        let effected = resolve(board, row, col);
        assert(in_bounds(board@, (row, col)));
        Action { row, col, color, effected }
    }

    /// Commits the action: unless the seed already has the candidate colour,
    /// repaints every cell of the action with it. Returns whether it did.
    pub fn apply(&self, board: &mut Board) -> (changed: bool)
        requires
            old(board).wf(),
            self.fits(old(board)@, old(board).colors()),
        ensures
            final(board).wf(),
            final(board).colors() == old(board).colors(),
            final(board)@.len() == old(board)@.len(),
            changed == (self.color != color_at(old(board)@, (self.row, self.col))),
            final(board)@ == applied(old(board)@, *self),
    {
        if self.color == board.get_color(self.row, self.col) {
            return false;
        }
        let ghost g = board@;
        let n = board.size();
        let mut i: usize = 0;
        while i < self.effected.len()
            invariant
                i <= self.effected.len(),
                self.fits(g, board.colors()),
                g == old(board)@,
                n == g.len(),
                is_grid(g, board.colors()),
                board.wf(),
                board.colors() == old(board).colors(),
                board@.len() == n,
                forall|r: int, c: int|
                    0 <= r < n && 0 <= c < n ==> #[trigger] board@[r][c] == painted(
                        g,
                        self.effected@.take(i as int).to_set(),
                        self.color,
                    )[r][c],
            decreases self.effected.len() - i,
        {
            let (r, c) = self.effected[i];
            let ghost before = board@;
            assert(in_bounds(g, self.effected@[i as int]));
            board.set_color(r, c, self.color);
            proof {
                let done = self.effected@.take(i as int);
                let more = self.effected@.take(i + 1);
                assert(more =~= done.push((r, c)));
                assert forall|p: (usize, usize)| more.contains(p) <==> (done.contains(p) || p == (
                    r,
                    c,
                )) by {
                    if done.contains(p) {
                        let j = choose|j: int| 0 <= j < done.len() && done[j] == p;
                        assert(more[j] == p);
                    }
                    if p == (r, c) {
                        assert(more[i as int] == p);
                    }
                }
                assert forall|y: int, z: int| 0 <= y < n && 0 <= z < n implies #[trigger] board@[y][z]
                    == painted(g, more.to_set(), self.color)[y][z] by {
                    let p = (y as usize, z as usize);
                    assert(before[y].len() == n);
                    assert(g[y].len() == n);
                    if y == r && z == c {
                        assert(more.contains(p));
                    } else {
                        assert(board@[y][z] == before[y][z]);
                        assert(more.contains(p) == done.contains(p));
                    }
                }
            }
            i += 1;
        }
        proof {
            assert(self.effected@.take(self.effected@.len() as int) =~= self.effected@);
            let target = painted(g, self.effected@.to_set(), self.color);
            assert forall|y: int| 0 <= y < n implies #[trigger] board@[y] =~= target[y] by {
                assert(board@[y].len() == n);
                assert(g[y].len() == n);
            }
            assert(board@ =~= target);
        }
        true
    }
}

/// Committing an action that covers the region of its seed leaves that
/// region in one piece: a fill from the seed on the new grid covers at least
/// the cells of the action.
pub proof fn lemma_commit_keeps_region_whole(g: Seq<Seq<usize>>, k: usize, a: Action)
    requires
        is_grid(g, k),
        in_bounds(g, (a.row, a.col)),
        is_listing(a.effected@, component(g, (a.row, a.col))),
    ensures
        component(g, (a.row, a.col)).subset_of(component(applied(g, a), (a.row, a.col))),
        forall|p: (usize, usize)|
            a.effected@.contains(p) ==> #[trigger] color_at(applied(g, a), p) == a.color,
{
    let seed = (a.row, a.col);
    lemma_region_of_seed(g, seed);
    if a.color != color_at(g, seed) {
        assert(a.effected@.to_set() =~= component(g, seed));
        lemma_painted_region_stays_whole(g, k, seed, a.color);
    }
}

/// Committing the same action a second time changes nothing on the board;
/// and where the seed is one of the action's cells, the second commit finds
/// the seed in the candidate colour already.
pub proof fn lemma_commit_twice(g: Seq<Seq<usize>>, k: usize, a: Action)
    requires
        is_grid(g, k),
        a.fits(g, k),
    ensures
        applied(applied(g, a), a) == applied(g, a),
        a.effected@.contains((a.row, a.col)) ==> color_at(applied(g, a), (a.row, a.col))
            == a.color,
{
    let seed = (a.row, a.col);
    let cells = a.effected@.to_set();
    let h = painted(g, cells, a.color);
    assert(g[a.row as int].len() == g.len());
    if a.color != color_at(g, seed) {
        let hh = painted(h, cells, a.color);
        assert forall|r: int| 0 <= r < h.len() implies #[trigger] hh[r] =~= h[r] by {}
        assert(hh =~= h);
    }
}

} // verus!
