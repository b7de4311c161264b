//! The interaction state machine: the board, the at most one pending action,
//! and the count of commits, advanced by one input per tick.

use crate::action::{applied, Action};
use crate::board::Board;
use crate::grid::{color_at, in_bounds};
use vstd::arithmetic::div_mod::{lemma_mod_self_0, lemma_small_mod};
use vstd::arithmetic::div_mod::lemma_mod_add_multiples_vanish;
use vstd::prelude::*;

verus! {

/// What the player did during one tick.
#[derive(Clone, Copy, Debug)]
pub struct Input {
    /// The cell under the cursor, as row and column, if there is one.
    pub cursor: Option<(usize, usize)>,
    /// The primary button was pressed during this tick.
    pub commit: bool,
    /// The key that cycles the candidate colour backward was pressed.
    pub backward: bool,
    /// The key that cycles the candidate colour forward was pressed.
    pub forward: bool,
}

/// The transition that a tick took.
#[derive(Clone, Copy, Debug, PartialEq, Eq, Structural)]
pub enum Step {
    /// The cursor is off the board: no action is pending.
    Idle,
    /// No action was pending: one starts at the cursor.
    Start,
    /// The cursor moved onto a cell whose colour is not the candidate: the
    /// action starts over at that cell.
    Restart,
    /// The cursor moved onto a cell of the candidate colour: the seed
    /// follows it, the region and the candidate stay.
    Drag,
    /// The pending action was committed, and a new one starts at the cursor.
    Commit,
    /// The candidate colour moved one back.
    CycleBackward,
    /// The candidate colour moved one forward.
    CycleForward,
    /// Nothing changed.
    Stay,
}

/// The colour one before `color` among `k` colours, the last one before the first.
pub open spec fn color_before(color: usize, k: usize) -> int {
    (color + k - 1) % (k as int)
}

/// The colour one after `color` among `k` colours, the first one after the last.
pub open spec fn color_after(color: usize, k: usize) -> int {
    (color + 1) % (k as int)
}

/// The colour one before `color` among `k` colours, wrapping around.
pub fn cycle_backward(color: usize, k: usize) -> (res: usize)
    requires
        color < k,
    ensures
        res == color_before(color, k),
        res < k,
{
    if color == 0 {
        proof {
            lemma_small_mod((k - 1) as nat, k as nat);
        }
        k - 1
    } else {
        proof {
            lemma_mod_add_multiples_vanish(color - 1, k as int);
            lemma_small_mod((color - 1) as nat, k as nat);
        }
        color - 1
    }
}

/// The colour one after `color` among `k` colours, wrapping around.
pub fn cycle_forward(color: usize, k: usize) -> (res: usize)
    requires
        color < k,
    ensures
        res == color_after(color, k),
        res < k,
{
    if color + 1 == k {
        proof {
            lemma_mod_self_0(k as int);
        }
        0
    } else {
        proof {
            lemma_small_mod((color + 1) as nat, k as nat);
        }
        color + 1
    }
}

/// The puzzle: its board, the pending action if there is one, and the number
/// of commits so far.
#[derive(Debug)]
pub struct State {
    /// The board.
    pub board: Board,
    /// The pending action.
    pub action: Option<Action>,
    /// How many actions have been committed.
    pub num_changed: usize,
}

impl State {
    /// The board is well formed, and a pending action can be committed on it
    /// and covers the region of one of its cells.
    pub open spec fn wf(&self) -> bool {
        &&& self.board.wf()
        &&& self.action matches Some(a) ==> a.fits(self.board@, self.board.colors())
            && a.spans_region(self.board@)
    }

    /// The cell of the board under the cursor, if the cursor is on the board.
    pub open spec fn cell_under(&self, input: Input) -> Option<(usize, usize)> {
        match input.cursor {
            Some(p) => if in_bounds(self.board@, p) {
                Some(p)
            } else {
                None
            },
            None => None,
        }
    }

    /// The transition that `input` calls for in this state.
    pub open spec fn step_of(&self, input: Input) -> Step {
        match self.cell_under(input) {
            None => Step::Idle,
            Some(p) => match self.action {
                None => Step::Start,
                Some(a) => if (a.row, a.col) != p {
                    if a.color != color_at(self.board@, p) {
                        Step::Restart
                    } else {
                        Step::Drag
                    }
                } else if input.commit {
                    Step::Commit
                } else if input.backward {
                    Step::CycleBackward
                } else if input.forward {
                    Step::CycleForward
                } else {
                    Step::Stay
                },
            },
        }
    }

    /// The state of a puzzle that begins on `board`: nothing pending, nothing
    /// committed.
    pub fn new(board: Board) -> (state: State)
        requires
            board.wf(),
        ensures
            state.wf(),
            state.board == board,
            state.action is None,
            state.num_changed == 0,
    {
        State { board, action: None, num_changed: 0 }
    }

    /// Advances the puzzle by one tick and returns the transition taken.
    pub fn update(&mut self, input: Input) -> (step: Step)
        requires
            old(self).wf(),
            old(self).step_of(input) == Step::Commit ==> old(self).num_changed < usize::MAX,
        ensures
            final(self).wf(),
            step == old(self).step_of(input),
            final(self).board.colors() == old(self).board.colors(),
            final(self).board@.len() == old(self).board@.len(),
            step != Step::Commit ==> final(self).board@ == old(self).board@,
            step != Step::Commit ==> final(self).num_changed == old(self).num_changed,
            match step {
                Step::Idle => final(self).action is None,
                Step::Start | Step::Restart => {
                    &&& old(self).cell_under(input) matches Some(p)
                    &&& final(self).action matches Some(a)
                    &&& a.is_fresh(old(self).board@, p)
                },
                Step::Drag => {
                    &&& old(self).cell_under(input) matches Some(p)
                    &&& old(self).action matches Some(b)
                    &&& final(self).action matches Some(a)
                    &&& a.row == p.0
                    &&& a.col == p.1
                    &&& a.color == b.color
                    &&& a.effected@ == b.effected@
                },
                Step::Commit => {
                    &&& old(self).cell_under(input) matches Some(p)
                    &&& old(self).action matches Some(b)
                    &&& final(self).action matches Some(a)
                    &&& final(self).board@ == applied(old(self).board@, b)
                    &&& final(self).num_changed == old(self).num_changed + 1
                    &&& a.is_fresh(final(self).board@, p)
                },
                Step::CycleBackward => {
                    &&& old(self).action matches Some(b)
                    &&& final(self).action matches Some(a)
                    &&& a.row == b.row
                    &&& a.col == b.col
                    &&& a.color == color_before(b.color, old(self).board.colors())
                    &&& a.effected@ == b.effected@
                },
                Step::CycleForward => {
                    &&& old(self).action matches Some(b)
                    &&& final(self).action matches Some(a)
                    &&& a.row == b.row
                    &&& a.col == b.col
                    &&& a.color == color_after(b.color, old(self).board.colors())
                    &&& a.effected@ == b.effected@
                },
                Step::Stay => final(self).action == old(self).action,
            },
    {
        let n = self.board.size();
        let (row, col) = match input.cursor {
            Some((r, c)) => {
                if r < n && c < n {
                    (r, c)
                } else {
                    self.action = None;
                    return Step::Idle;
                }
            },
            None => {
                self.action = None;
                return Step::Idle;
            },
        };
        let here = self.board.get_color(row, col);
        let pending = self.action.take();
        match pending {
            None => {
                self.action = Some(Action::new(&self.board, row, col, here));
                Step::Start
            },
            Some(mut action) => {
                if action.row != row || action.col != col {
                    if action.color != here {
                        self.action = Some(Action::new(&self.board, row, col, here));
                        Step::Restart
                    } else {
                        action.row = row;
                        action.col = col;
                        self.action = Some(action);
                        Step::Drag
                    }
                } else if input.commit {
                    action.apply(&mut self.board);
                    self.num_changed += 1;
                    let now = self.board.get_color(row, col);
                    self.action = Some(Action::new(&self.board, row, col, now));
                    Step::Commit
                } else if input.backward {
                    action.color = cycle_backward(action.color, self.board.colors());
                    self.action = Some(action);
                    Step::CycleBackward
                } else if input.forward {
                    action.color = cycle_forward(action.color, self.board.colors());
                    self.action = Some(action);
                    Step::CycleForward
                } else {
                    self.action = Some(action);
                    Step::Stay
                }
            },
        }
    }
}

} // verus!
