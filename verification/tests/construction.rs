use maze_rl::{Action, Board};
use std::collections::HashSet;

fn open_board(rows: usize, columns: usize) -> Board {
    let blocked: HashSet<(usize, usize)> = HashSet::new();
    Board::new(rows, columns, (1, 1), (rows, columns), &blocked)
}

fn walled_board() -> Board {
    let mut blocked: HashSet<(usize, usize)> = HashSet::new();
    blocked.insert((2, 2));
    blocked.insert((3, 4));
    Board::new(4, 4, (1, 1), (4, 4), &blocked)
}

#[test]
fn corner_cells_have_two_moves() {
    let board = open_board(3, 3);
    assert_eq!(board.state(0, 0).actions, vec![Action::Right, Action::Down]);
    assert_eq!(board.state(0, 2).actions, vec![Action::Down, Action::Left]);
    assert_eq!(board.state(2, 0).actions, vec![Action::Up, Action::Right]);
    assert_eq!(board.state(2, 2).actions, vec![Action::Up, Action::Left]);
}

#[test]
fn edge_cells_have_three_moves() {
    let board = open_board(3, 3);
    assert_eq!(board.state(0, 1).actions, vec![Action::Right, Action::Down, Action::Left]);
    assert_eq!(board.state(1, 0).actions, vec![Action::Up, Action::Right, Action::Down]);
    assert_eq!(board.state(1, 2).actions, vec![Action::Up, Action::Down, Action::Left]);
    assert_eq!(board.state(2, 1).actions, vec![Action::Up, Action::Right, Action::Left]);
}

#[test]
fn interior_cells_have_four_moves() {
    let board = open_board(5, 5);
    for row in 1..4 {
        for col in 1..4 {
            let state = board.state(row, col);
            assert_eq!(
                state.actions,
                vec![Action::Up, Action::Right, Action::Down, Action::Left]
            );
            assert_eq!(state.actions.len(), 4);
        }
    }
}

#[test]
fn blocked_cells_have_no_moves() {
    let board = walled_board();
    assert_eq!(board.state(1, 1).actions.len(), 0);
    assert_eq!(board.state(1, 1).action_values.len(), 0);
    assert_eq!(board.state(2, 3).actions.len(), 0);
    assert_eq!(board.state(2, 3).action_values.len(), 0);
}

#[test]
fn neighbours_of_a_blocked_cell_cannot_enter_it() {
    let board = walled_board();
    assert_eq!(board.state(0, 1).actions, vec![Action::Right, Action::Left]);
    assert_eq!(board.state(1, 0).actions, vec![Action::Up, Action::Down]);
    assert_eq!(board.state(2, 1).actions, vec![Action::Right, Action::Down, Action::Left]);
    assert_eq!(board.state(1, 2).actions, vec![Action::Up, Action::Right, Action::Down]);
    assert_eq!(board.state(1, 3).actions, vec![Action::Up, Action::Left]);
    assert_eq!(board.state(3, 3).actions, vec![Action::Left]);
    assert_eq!(board.state(2, 2).actions, vec![Action::Up, Action::Down, Action::Left]);
}

#[test]
fn every_move_has_one_estimate() {
    let board = walled_board();
    for row in 0..board.rows() {
        for col in 0..board.columns() {
            let state = board.state(row, col);
            assert_eq!(state.actions.len(), state.action_values.len());
            assert!(state.actions.len() <= 4);
        }
    }
}

#[test]
fn estimates_start_at_zero() {
    let board = walled_board();
    for row in 0..4 {
        for col in 0..4 {
            for value in board.state(row, col).action_values.iter() {
                assert_eq!(*value, 0);
            }
        }
    }
}

#[test]
fn positions_are_stored_zero_based() {
    let blocked: HashSet<(usize, usize)> = HashSet::new();
    let board = Board::new(4, 6, (2, 3), (4, 5), &blocked);
    assert_eq!(board.rows(), 4);
    assert_eq!(board.columns(), 6);
    assert_eq!(board.start(), (1, 2));
    assert_eq!(board.finish(), (3, 4));
    assert_eq!(board.current(), (1, 2));
    assert!(board.can_start());
    assert!(!board.at_goal());
}

#[test]
fn blocked_positions_off_the_grid_are_ignored() {
    let mut blocked: HashSet<(usize, usize)> = HashSet::new();
    blocked.insert((0, 1));
    blocked.insert((1, 0));
    blocked.insert((4, 2));
    blocked.insert((9, 9));
    let board = Board::new(3, 3, (1, 1), (3, 3), &blocked);
    let open = open_board(3, 3);
    for row in 0..3 {
        for col in 0..3 {
            assert_eq!(board.state(row, col).actions, open.state(row, col).actions);
        }
    }
}

#[test]
fn single_row_maze_moves_sideways_only() {
    let board = open_board(1, 3);
    assert_eq!(board.state(0, 0).actions, vec![Action::Right]);
    assert_eq!(board.state(0, 1).actions, vec![Action::Right, Action::Left]);
    assert_eq!(board.state(0, 2).actions, vec![Action::Left]);
}

#[test]
fn enclosed_start_cannot_start() {
    let mut blocked: HashSet<(usize, usize)> = HashSet::new();
    blocked.insert((1, 2));
    blocked.insert((2, 1));
    let board = Board::new(3, 3, (1, 1), (3, 3), &blocked);
    assert_eq!(board.state(0, 0).actions.len(), 0);
    assert!(!board.can_start());
}

#[test]
fn clone_learns_on_its_own() {
    let board = open_board(3, 3);
    let mut copy = board.clone();
    copy.train(3, 5, 100_000, 50_000, 0);
    assert_eq!(board.state(0, 0).action_values, vec![0, 0]);
    assert_ne!(copy.state(0, 0).action_values, vec![0, 0]);
    assert_eq!(copy.state(0, 0).actions, board.state(0, 0).actions);
    assert_eq!(copy.start(), board.start());
    assert_eq!(copy.finish(), board.finish());
}

#[test]
fn layout_is_valid_when_start_and_goal_are_two_open_cells() {
    let mut blocked: HashSet<(usize, usize)> = HashSet::new();
    blocked.insert((2, 2));
    assert!(Board::valid_layout(3, 3, (1, 1), (3, 3), &blocked));
    assert!(Board::valid_layout(3, 3, (3, 1), (1, 3), &blocked));
    assert!(Board::valid_layout(1, 2, (1, 1), (1, 2), &blocked));
}

#[test]
fn layout_is_invalid_off_the_grid() {
    let blocked: HashSet<(usize, usize)> = HashSet::new();
    assert!(!Board::valid_layout(3, 3, (0, 0), (3, 3), &blocked));
    assert!(!Board::valid_layout(3, 3, (1, 1), (0, 0), &blocked));
    assert!(!Board::valid_layout(3, 3, (4, 1), (3, 3), &blocked));
    assert!(!Board::valid_layout(3, 3, (1, 1), (3, 4), &blocked));
    assert!(!Board::valid_layout(0, 0, (1, 1), (1, 1), &blocked));
}

#[test]
fn layout_is_invalid_when_start_is_goal_or_either_is_blocked() {
    let mut blocked: HashSet<(usize, usize)> = HashSet::new();
    blocked.insert((2, 2));
    assert!(!Board::valid_layout(3, 3, (1, 1), (1, 1), &blocked));
    assert!(!Board::valid_layout(3, 3, (2, 2), (3, 3), &blocked));
    assert!(!Board::valid_layout(3, 3, (1, 1), (2, 2), &blocked));
}
