use colorful_panel::board::Board;
use colorful_panel::state::{cycle_backward, cycle_forward, Input, State, Step};

fn table(rows: &[&[usize]]) -> Board {
    Board::from_rows(rows.iter().map(|row| row.to_vec()).collect(), 9).unwrap()
}

fn shades(board: &Board) -> Vec<Vec<usize>> {
    let n = board.size();
    (0..n)
        .map(|r| (0..n).map(|c| board.get_color(r, c)).collect())
        .collect()
}

fn at(row: usize, col: usize) -> Input {
    Input {
        cursor: Some((row, col)),
        commit: false,
        backward: false,
        forward: false,
    }
}

fn away() -> Input {
    Input {
        cursor: None,
        commit: false,
        backward: false,
        forward: false,
    }
}

fn press(row: usize, col: usize) -> Input {
    Input {
        commit: true,
        ..at(row, col)
    }
}

fn back(row: usize, col: usize) -> Input {
    Input {
        backward: true,
        ..at(row, col)
    }
}

fn forth(row: usize, col: usize) -> Input {
    Input {
        forward: true,
        ..at(row, col)
    }
}

fn sample() -> State {
    State::new(table(&[&[0, 0, 1], &[0, 1, 1], &[1, 1, 1]]))
}

#[test]
fn new_state_has_nothing_pending() {
    let state = sample();
    assert!(state.action.is_none());
    assert_eq!(state.num_changed, 0);
    assert_eq!(
        shades(&state.board),
        vec![vec![0, 0, 1], vec![0, 1, 1], vec![1, 1, 1]]
    );
}

#[test]
fn cursor_on_the_board_starts_an_action() {
    let mut state = sample();
    assert_eq!(state.update(at(1, 0)), Step::Start);
    let action = state.action.as_ref().unwrap();
    assert_eq!((action.row, action.col), (1, 0));
    assert_eq!(action.color, 0);
    assert_eq!(action.effected, vec![(0, 0), (0, 1), (1, 0)]);
    assert_eq!(state.num_changed, 0);
}

#[test]
fn start_ignores_the_buttons() {
    let mut state = sample();
    let input = Input {
        cursor: Some((2, 2)),
        commit: true,
        backward: true,
        forward: true,
    };
    assert_eq!(state.update(input), Step::Start);
    let action = state.action.as_ref().unwrap();
    assert_eq!((action.row, action.col, action.color), (2, 2, 1));
    assert_eq!(state.num_changed, 0);
    assert_eq!(
        shades(&state.board),
        vec![vec![0, 0, 1], vec![0, 1, 1], vec![1, 1, 1]]
    );
}

#[test]
fn cursor_off_the_board_drops_the_action() {
    let mut state = sample();
    assert_eq!(state.update(away()), Step::Idle);
    assert!(state.action.is_none());
    assert_eq!(state.update(at(0, 0)), Step::Start);
    assert!(state.action.is_some());
    assert_eq!(state.update(away()), Step::Idle);
    assert!(state.action.is_none());
    assert_eq!(state.num_changed, 0);
}

#[test]
fn cursor_beyond_the_last_row_or_column_is_off_the_board() {
    let mut state = sample();
    assert_eq!(state.update(at(0, 0)), Step::Start);
    assert_eq!(state.update(at(3, 0)), Step::Idle);
    assert!(state.action.is_none());
    assert_eq!(state.update(at(0, 0)), Step::Start);
    assert_eq!(state.update(press(0, 3)), Step::Idle);
    assert!(state.action.is_none());
    assert_eq!(state.update(at(usize::MAX, usize::MAX)), Step::Idle);
    assert_eq!(state.num_changed, 0);
}

#[test]
fn staying_on_the_seed_changes_nothing() {
    let mut state = sample();
    assert_eq!(state.update(at(0, 1)), Step::Start);
    assert_eq!(state.update(at(0, 1)), Step::Stay);
    let action = state.action.as_ref().unwrap();
    assert_eq!((action.row, action.col, action.color), (0, 1, 0));
    assert_eq!(action.effected, vec![(0, 0), (0, 1), (1, 0)]);
    assert_eq!(state.num_changed, 0);
}

#[test]
fn moving_onto_another_color_starts_over() {
    let mut state = sample();
    assert_eq!(state.update(at(0, 0)), Step::Start);
    assert_eq!(state.update(at(1, 1)), Step::Restart);
    let action = state.action.as_ref().unwrap();
    assert_eq!((action.row, action.col, action.color), (1, 1, 1));
    assert_eq!(
        action.effected,
        vec![(0, 2), (1, 1), (1, 2), (2, 0), (2, 1), (2, 2)]
    );
}

#[test]
fn moving_within_the_candidate_color_keeps_the_region() {
    let mut state = State::new(table(&[&[2, 5, 2], &[2, 5, 2], &[2, 5, 2]]));
    assert_eq!(state.update(at(0, 0)), Step::Start);
    assert_eq!(state.update(at(1, 0)), Step::Drag);
    {
        let action = state.action.as_ref().unwrap();
        assert_eq!((action.row, action.col, action.color), (1, 0, 2));
        assert_eq!(action.effected, vec![(0, 0), (1, 0), (2, 0)]);
    }
    assert_eq!(state.update(at(2, 2)), Step::Drag);
    let action = state.action.as_ref().unwrap();
    assert_eq!((action.row, action.col, action.color), (2, 2, 2));
    assert_eq!(action.effected, vec![(0, 0), (1, 0), (2, 0)]);
}

#[test]
fn drag_follows_the_changed_candidate() {
    let mut state = State::new(table(&[&[4, 3, 4], &[4, 4, 4], &[0, 0, 0]]));
    assert_eq!(state.update(at(0, 0)), Step::Start);
    assert_eq!(state.update(back(0, 0)), Step::CycleBackward);
    assert_eq!(state.action.as_ref().unwrap().color, 3);
    assert_eq!(state.update(at(0, 1)), Step::Drag);
    let action = state.action.as_ref().unwrap();
    assert_eq!((action.row, action.col), (0, 1));
    assert_eq!(action.color, 3);
    assert_eq!(
        action.effected,
        vec![(0, 0), (0, 2), (1, 0), (1, 1), (1, 2)]
    );
}

#[test]
fn moving_within_the_board_color_after_a_cycle_starts_over() {
    let mut state = State::new(table(&[&[4, 4, 3], &[0, 4, 4], &[0, 0, 0]]));
    assert_eq!(state.update(at(0, 0)), Step::Start);
    assert_eq!(state.update(forth(0, 0)), Step::CycleForward);
    assert_eq!(state.action.as_ref().unwrap().color, 5);
    assert_eq!(state.update(at(0, 1)), Step::Restart);
    let action = state.action.as_ref().unwrap();
    assert_eq!((action.row, action.col, action.color), (0, 1, 4));
    assert_eq!(action.effected, vec![(0, 0), (0, 1), (1, 1), (1, 2)]);
}

#[test]
fn moving_beats_the_buttons() {
    let mut state = sample();
    assert_eq!(state.update(at(0, 0)), Step::Start);
    let input = Input {
        cursor: Some((0, 1)),
        commit: true,
        backward: true,
        forward: true,
    };
    assert_eq!(state.update(input), Step::Drag);
    assert_eq!(state.num_changed, 0);
    assert_eq!(state.action.as_ref().unwrap().color, 0);
    let input = Input {
        cursor: Some((2, 2)),
        commit: true,
        backward: true,
        forward: true,
    };
    assert_eq!(state.update(input), Step::Restart);
    assert_eq!(state.num_changed, 0);
    assert_eq!(state.action.as_ref().unwrap().color, 1);
}

#[test]
fn commit_repaints_counts_and_starts_anew() {
    let mut state = sample();
    assert_eq!(state.update(at(0, 0)), Step::Start);
    assert_eq!(state.update(forth(0, 0)), Step::CycleForward);
    assert_eq!(state.update(forth(0, 0)), Step::CycleForward);
    {
        let action = state.action.as_ref().unwrap();
        assert_eq!(action.color, 2);
        assert_eq!(action.effected, vec![(0, 0), (0, 1), (1, 0)]);
    }
    assert_eq!(state.update(press(0, 0)), Step::Commit);
    assert_eq!(
        shades(&state.board),
        vec![vec![2, 2, 1], vec![2, 1, 1], vec![1, 1, 1]]
    );
    assert_eq!(state.num_changed, 1);
    let action = state.action.as_ref().unwrap();
    assert_eq!((action.row, action.col, action.color), (0, 0, 2));
    assert_eq!(action.effected, vec![(0, 0), (0, 1), (1, 0)]);
}

#[test]
fn commit_merges_with_the_neighbouring_region() {
    let mut state = sample();
    assert_eq!(state.update(at(0, 0)), Step::Start);
    assert_eq!(state.update(forth(0, 0)), Step::CycleForward);
    assert_eq!(state.update(press(0, 0)), Step::Commit);
    assert_eq!(shades(&state.board), vec![vec![1; 3]; 3]);
    let action = state.action.as_ref().unwrap();
    assert_eq!(action.color, 1);
    assert_eq!(action.effected.len(), 9);
    for cell in [(0, 0), (0, 1), (1, 0)] {
        assert!(action.effected.contains(&cell));
    }
}

#[test]
fn commit_of_the_board_color_changes_nothing_but_counts() {
    let mut state = sample();
    assert_eq!(state.update(at(1, 1)), Step::Start);
    assert_eq!(state.update(press(1, 1)), Step::Commit);
    assert_eq!(
        shades(&state.board),
        vec![vec![0, 0, 1], vec![0, 1, 1], vec![1, 1, 1]]
    );
    assert_eq!(state.num_changed, 1);
    assert_eq!(state.update(press(1, 1)), Step::Commit);
    assert_eq!(
        shades(&state.board),
        vec![vec![0, 0, 1], vec![0, 1, 1], vec![1, 1, 1]]
    );
    assert_eq!(state.num_changed, 2);
}

#[test]
fn committing_twice_leaves_the_board_as_after_the_first() {
    let mut state = sample();
    assert_eq!(state.update(at(0, 1)), Step::Start);
    assert_eq!(state.update(back(0, 1)), Step::CycleBackward);
    assert_eq!(state.update(press(0, 1)), Step::Commit);
    let once = shades(&state.board);
    assert_eq!(once, vec![vec![8, 8, 1], vec![8, 1, 1], vec![1, 1, 1]]);
    assert_eq!(state.update(press(0, 1)), Step::Commit);
    assert_eq!(shades(&state.board), once);
}

#[test]
fn commit_after_a_drag_repaints_the_region_first_resolved() {
    let mut state = State::new(table(&[&[4, 3, 4], &[4, 4, 4], &[0, 0, 0]]));
    assert_eq!(state.update(at(0, 0)), Step::Start);
    assert_eq!(state.update(back(0, 0)), Step::CycleBackward);
    assert_eq!(state.update(at(0, 1)), Step::Drag);
    assert_eq!(state.update(back(0, 1)), Step::CycleBackward);
    assert_eq!(state.action.as_ref().unwrap().color, 2);
    assert_eq!(state.update(press(0, 1)), Step::Commit);
    assert_eq!(
        shades(&state.board),
        vec![vec![2, 3, 2], vec![2, 2, 2], vec![0, 0, 0]]
    );
    assert_eq!(state.num_changed, 1);
    let action = state.action.as_ref().unwrap();
    assert_eq!((action.row, action.col, action.color), (0, 1, 3));
    assert_eq!(action.effected, vec![(0, 1)]);
}

#[test]
fn commit_beats_the_cycle_keys() {
    let mut state = sample();
    assert_eq!(state.update(at(0, 0)), Step::Start);
    let input = Input {
        cursor: Some((0, 0)),
        commit: true,
        backward: true,
        forward: true,
    };
    assert_eq!(state.update(input), Step::Commit);
    assert_eq!(state.action.as_ref().unwrap().color, 0);
    assert_eq!(state.num_changed, 1);
}

#[test]
fn backward_beats_forward() {
    let mut state = sample();
    assert_eq!(state.update(at(1, 1)), Step::Start);
    let input = Input {
        cursor: Some((1, 1)),
        commit: false,
        backward: true,
        forward: true,
    };
    assert_eq!(state.update(input), Step::CycleBackward);
    assert_eq!(state.action.as_ref().unwrap().color, 0);
}

#[test]
fn cycling_backward_from_the_first_color_wraps_to_the_last() {
    let mut state = sample();
    assert_eq!(state.update(at(0, 0)), Step::Start);
    assert_eq!(state.action.as_ref().unwrap().color, 0);
    assert_eq!(state.update(back(0, 0)), Step::CycleBackward);
    let action = state.action.as_ref().unwrap();
    assert_eq!(action.color, 8);
    assert_eq!((action.row, action.col), (0, 0));
    assert_eq!(action.effected, vec![(0, 0), (0, 1), (1, 0)]);
}

#[test]
fn cycling_forward_from_the_last_color_wraps_to_the_first() {
    let mut state = State::new(table(&[&[8, 1], &[1, 8]]));
    assert_eq!(state.update(at(0, 0)), Step::Start);
    assert_eq!(state.action.as_ref().unwrap().color, 8);
    assert_eq!(state.update(forth(0, 0)), Step::CycleForward);
    let action = state.action.as_ref().unwrap();
    assert_eq!(action.color, 0);
    assert_eq!((action.row, action.col), (0, 0));
    assert_eq!(action.effected, vec![(0, 0)]);
}

#[test]
fn cycling_all_the_way_round_returns_to_the_start() {
    let mut state = sample();
    assert_eq!(state.update(at(2, 0)), Step::Start);
    let mut seen = Vec::new();
    for _ in 0..9 {
        assert_eq!(state.update(forth(2, 0)), Step::CycleForward);
        seen.push(state.action.as_ref().unwrap().color);
    }
    assert_eq!(seen, vec![2, 3, 4, 5, 6, 7, 8, 0, 1]);
    for _ in 0..9 {
        assert_eq!(state.update(back(2, 0)), Step::CycleBackward);
    }
    assert_eq!(state.action.as_ref().unwrap().color, 1);
    assert_eq!(state.num_changed, 0);
}

#[test]
fn cycle_functions_wrap() {
    assert_eq!(cycle_backward(0, 9), 8);
    assert_eq!(cycle_backward(8, 9), 7);
    assert_eq!(cycle_backward(5, 9), 4);
    assert_eq!(cycle_forward(8, 9), 0);
    assert_eq!(cycle_forward(0, 9), 1);
    assert_eq!(cycle_forward(5, 9), 6);
    assert_eq!(cycle_backward(0, 1), 0);
    assert_eq!(cycle_forward(0, 1), 0);
    assert_eq!(cycle_backward(0, usize::MAX), usize::MAX - 1);
    assert_eq!(cycle_forward(usize::MAX - 1, usize::MAX), 0);
}

#[test]
fn candidate_stays_in_the_palette() {
    let mut state = State::new(Board::from_rows(vec![vec![0, 1], vec![1, 2]], 3).unwrap());
    assert_eq!(state.update(at(1, 1)), Step::Start);
    for _ in 0..7 {
        assert_eq!(state.update(forth(1, 1)), Step::CycleForward);
        assert!(state.action.as_ref().unwrap().color < 3);
    }
    assert_eq!(state.action.as_ref().unwrap().color, 0);
    for _ in 0..5 {
        assert_eq!(state.update(back(1, 1)), Step::CycleBackward);
        assert!(state.action.as_ref().unwrap().color < 3);
    }
    assert_eq!(state.action.as_ref().unwrap().color, 1);
}

#[test]
fn single_cell_board_plays() {
    let mut state = State::new(table(&[&[6]]));
    assert_eq!(state.update(at(0, 0)), Step::Start);
    assert_eq!(state.action.as_ref().unwrap().effected, vec![(0, 0)]);
    assert_eq!(state.update(forth(0, 0)), Step::CycleForward);
    assert_eq!(state.update(press(0, 0)), Step::Commit);
    assert_eq!(shades(&state.board), vec![vec![7]]);
    assert_eq!(state.num_changed, 1);
    assert_eq!(state.update(at(0, 1)), Step::Idle);
}

#[test]
fn empty_board_is_always_idle() {
    let mut state = State::new(Board::from_rows(Vec::new(), 9).unwrap());
    assert_eq!(state.update(press(0, 0)), Step::Idle);
    assert_eq!(state.update(away()), Step::Idle);
    assert!(state.action.is_none());
    assert_eq!(state.num_changed, 0);
}
