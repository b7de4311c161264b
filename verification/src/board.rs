//! The board: a square matrix of coloured cells.

use crate::grid::is_grid;
use crate::random::draw_below;
use rand::rngs::StdRng;
use vstd::prelude::*;

verus! {

/// The number of rows and of columns of the board that the game is played on.
pub const N: usize = 30;

/// The number of colours in the game's palette.
pub const K: usize = 9;

/// The matrix that a vector of rows stands for.
pub open spec fn grid_of(rows: Seq<Vec<usize>>) -> Seq<Seq<usize>> {
    Seq::new(rows.len(), |r: int| rows[r]@)
}

/// A square matrix of cells, each holding a colour index below `colors()`.
#[derive(Clone, Debug)]
pub struct Board {
    cells: Vec<Vec<usize>>,
    colors: usize,
}

impl View for Board {
    type V = Seq<Seq<usize>>;

    closed spec fn view(&self) -> Seq<Seq<usize>> {
        grid_of(self.cells@)
    }
}

impl Board {
    /// The number of colours that the board's cells choose from.
    pub closed spec fn spec_colors(&self) -> usize {
        self.colors
    }

    /// The board is square and every cell holds a valid colour index.
    pub open spec fn wf(&self) -> bool {
        is_grid(self@, self.colors())
    }

    /// The board with the given rows, if they form a square matrix of colour
    /// indices below `colors`.
    pub fn from_rows(rows: Vec<Vec<usize>>, colors: usize) -> (res: Option<Board>)
        ensures
            res is Some <==> is_grid(grid_of(rows@), colors),
            res matches Some(b) ==> b.wf() && b@ == grid_of(rows@) && b.colors() == colors,
    {
        let n = rows.len();
        let mut r: usize = 0;
        while r < n
            invariant
                n == rows.len(),
                r <= n,
                forall|i: int| 0 <= i < r ==> (#[trigger] rows[i]).len() == n,
                forall|i: int, j: int| 0 <= i < r && 0 <= j < n ==> #[trigger] rows[i][j] < colors,
            decreases n - r,
        {
            if rows[r].len() != n {
                assert(grid_of(rows@)[r as int].len() != grid_of(rows@).len());
                return None;
            }
            let mut c: usize = 0;
            while c < n
                invariant
                    n == rows.len(),
                    r < n,
                    c <= n,
                    rows[r as int].len() == n,
                    forall|j: int| 0 <= j < c ==> #[trigger] rows[r as int][j] < colors,
                decreases n - c,
            {
                if rows[r][c] >= colors {
                    assert(grid_of(rows@)[r as int][c as int] >= colors);
                    return None;
                }
                c += 1;
            }
            r += 1;
        }
        Some(Board { cells: rows, colors })
    }

    /// A board of `n` rows and `n` columns, the colour of each cell drawn
    /// from `rng` among the indices below `k`.
    pub fn new_random(n: usize, k: usize, rng: &mut StdRng) -> (board: Board)
        requires
            n == 0 || k > 0,
        ensures
            board.wf(),
            board@.len() == n,
            board.colors() == k,
    {
        let mut cells: Vec<Vec<usize>> = Vec::new();
        let mut r: usize = 0;
        while r < n
            invariant
                n == 0 || k > 0,
                r <= n,
                cells.len() == r,
                forall|i: int| 0 <= i < r ==> (#[trigger] cells[i]).len() == n,
                forall|i: int, j: int| 0 <= i < r && 0 <= j < n ==> #[trigger] cells[i][j] < k,
            decreases n - r,
        {
            let mut row: Vec<usize> = Vec::new();
            let mut c: usize = 0;
            while c < n
                invariant
                    k > 0,
                    c <= n,
                    row.len() == c,
                    forall|j: int| 0 <= j < c ==> #[trigger] row[j] < k,
                decreases n - c,
            {
                let color = draw_below(rng, k);
                row.push(color);
                c += 1;
            }
            cells.push(row);
            r += 1;
        }
        Board { cells, colors: k }
    }

    /// The number of rows, which is also the number of columns.
    pub fn size(&self) -> (n: usize)
        ensures
            n == self@.len(),
    {
        self.cells.len()
    }

    /// The number of colours that the board's cells choose from.
    #[verifier::when_used_as_spec(spec_colors)]
    pub fn colors(&self) -> (k: usize)
        ensures
            k == self.colors(),
    {
        self.colors
    }

    /// The colour of the cell at `row`, `col`.
    pub fn get_color(&self, row: usize, col: usize) -> (color: usize)
        requires
            self.wf(),
            row < self@.len(),
            col < self@.len(),
        ensures
            color == self@[row as int][col as int],
            color < self.colors(),
    {
        assert(self@[row as int].len() == self@.len());
        self.cells[row][col]
    }

    /// Overwrites the colour of the cell at `row`, `col`.
    pub fn set_color(&mut self, row: usize, col: usize, color: usize)
        requires
            old(self).wf(),
            row < old(self)@.len(),
            col < old(self)@.len(),
            color < old(self).colors(),
        ensures
            final(self).wf(),
            final(self).colors() == old(self).colors(),
            final(self)@ == old(self)@.update(
                row as int,
                old(self)@[row as int].update(col as int, color),
            ),
    {
        assert(self@[row as int].len() == self@.len());
        self.cells[row][col] = color;
        assert(self@ =~= old(self)@.update(
            row as int,
            old(self)@[row as int].update(col as int, color),
        ));
        assert forall|r: int, c: int| 0 <= r < self@.len() && 0 <= c < self@.len() implies #[trigger] self@[r][c] < self.colors() by {
            if r == row as int && c == col as int {
            } else {
                assert(self@[r][c] == old(self)@[r][c]);
            }
        }
    }
}

} // verus!
