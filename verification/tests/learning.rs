use maze_rl::learning::discounted_returns;
use maze_rl::{Action, Board, ONE};
use std::collections::HashSet;

fn open_board() -> Board {
    let blocked: HashSet<(usize, usize)> = HashSet::new();
    Board::new(3, 3, (1, 1), (3, 3), &blocked)
}

fn all_values(board: &Board) -> Vec<Vec<i64>> {
    let mut out = Vec::new();
    for row in 0..board.rows() {
        for col in 0..board.columns() {
            out.push(board.state(row, col).action_values.clone());
        }
    }
    out
}

#[test]
fn returns_without_discount_count_the_steps_left() {
    let rewards = vec![-ONE, -ONE, -ONE, 0];
    assert_eq!(discounted_returns(&rewards, ONE), vec![-300_000, -200_000, -100_000, 0]);
}

#[test]
fn returns_with_discount() {
    let rewards = vec![-ONE, -ONE, -ONE, 0];
    assert_eq!(discounted_returns(&rewards, 90_000), vec![-271_000, -190_000, -100_000, 0]);
}

#[test]
fn returns_are_rounded_to_five_places() {
    let rewards = vec![-ONE, -ONE, -ONE];
    assert_eq!(discounted_returns(&rewards, 33_333), vec![-144_444, -133_333, -100_000]);
}

#[test]
fn returns_of_an_episode_cut_by_the_cap() {
    let rewards = vec![-ONE, -ONE];
    assert_eq!(discounted_returns(&rewards, ONE), vec![-200_000, -100_000]);
}

#[test]
fn returns_with_zero_discount_are_the_rewards() {
    let rewards = vec![-ONE, 0, -ONE, 0];
    assert_eq!(discounted_returns(&rewards, 0), rewards);
}

#[test]
fn returns_of_no_steps() {
    let rewards: Vec<i64> = Vec::new();
    assert_eq!(discounted_returns(&rewards, ONE), Vec::<i64>::new());
}

#[test]
fn update_moves_each_visited_estimate_toward_its_return() {
    let mut board = open_board();
    let episode = vec![
        ((0, 0), Action::Right, -ONE),
        ((0, 1), Action::Down, -ONE),
        ((1, 1), Action::Right, -ONE),
        ((1, 2), Action::Down, 0),
    ];
    board.update_after_trajectory(&episode, ONE, 50_000);
    assert_eq!(board.state(0, 0).action_values, vec![-150_000, 0]);
    assert_eq!(board.state(0, 1).action_values, vec![0, -100_000, 0]);
    assert_eq!(board.state(1, 1).action_values, vec![0, -50_000, 0, 0]);
    assert_eq!(board.state(1, 2).action_values, vec![0, 0, 0]);
    assert_eq!(board.state(2, 2).action_values, vec![0, 0]);
    assert_eq!(board.current(), board.start());
}

#[test]
fn update_learns_from_every_visit_in_turn() {
    let mut board = open_board();
    let episode = vec![
        ((0, 0), Action::Right, -ONE),
        ((0, 1), Action::Left, -ONE),
        ((0, 0), Action::Right, -ONE),
        ((0, 1), Action::Down, -ONE),
    ];
    board.update_after_trajectory(&episode, ONE, 25_000);
    assert_eq!(board.state(0, 0).action_values, vec![-125_000, 0]);
    assert_eq!(board.state(0, 1).action_values, vec![0, -25_000, -75_000]);
}

#[test]
fn update_with_full_learning_rate_takes_the_return() {
    let mut board = open_board();
    let episode = vec![
        ((0, 0), Action::Down, -ONE),
        ((1, 0), Action::Down, -ONE),
        ((2, 0), Action::Right, -ONE),
        ((2, 1), Action::Right, 0),
    ];
    board.update_after_trajectory(&episode, 50_000, ONE);
    assert_eq!(board.state(0, 0).action_values, vec![0, -175_000]);
    assert_eq!(board.state(1, 0).action_values, vec![0, 0, -150_000]);
    assert_eq!(board.state(2, 0).action_values, vec![0, -100_000]);
    assert_eq!(board.state(2, 1).action_values, vec![0, 0, 0]);
}

#[test]
fn update_with_zero_learning_rate_changes_nothing() {
    let mut board = open_board();
    board.train(20, 50, ONE, 50_000, 30_000);
    let before = all_values(&board);
    let episode = vec![
        ((0, 0), Action::Right, -ONE),
        ((0, 1), Action::Down, -ONE),
        ((1, 1), Action::Right, -ONE),
        ((1, 2), Action::Down, 0),
    ];
    board.update_after_trajectory(&episode, ONE, 0);
    assert_eq!(all_values(&board), before);
    board.update_after_trajectory(&episode, 37_000, 0);
    assert_eq!(all_values(&board), before);
}

#[test]
fn training_with_zero_learning_rate_changes_nothing() {
    let mut board = open_board();
    board.train(50, 30, ONE, 0, 50_000);
    for values in all_values(&board) {
        for value in values {
            assert_eq!(value, 0);
        }
    }
    board.train(10, 30, ONE, 50_000, 50_000);
    let before = all_values(&board);
    board.train(50, 30, 90_000, 0, ONE);
    assert_eq!(all_values(&board), before);
}

#[test]
fn update_passes_over_a_move_that_the_cell_lacks() {
    let mut board = open_board();
    let episode = vec![((0, 0), Action::Up, -ONE), ((0, 0), Action::Left, -ONE)];
    board.update_after_trajectory(&episode, ONE, 50_000);
    for values in all_values(&board) {
        for value in values {
            assert_eq!(value, 0);
        }
    }
}

#[test]
fn update_with_no_steps_changes_nothing() {
    let mut board = open_board();
    let episode: Vec<((usize, usize), Action, i64)> = Vec::new();
    board.update_after_trajectory(&episode, ONE, 50_000);
    for values in all_values(&board) {
        for value in values {
            assert_eq!(value, 0);
        }
    }
}

#[test]
fn update_keeps_the_moves_of_every_cell() {
    let mut board = open_board();
    let fresh = open_board();
    board.train(30, 40, 90_000, 50_000, 20_000);
    for row in 0..3 {
        for col in 0..3 {
            assert_eq!(board.state(row, col).actions, fresh.state(row, col).actions);
            assert_eq!(
                board.state(row, col).actions.len(),
                board.state(row, col).action_values.len()
            );
        }
    }
}

#[test]
fn estimates_stay_between_minus_the_cap_and_zero() {
    for cap in [1u32, 4, 30] {
        let mut board = open_board();
        for epsilon in [ONE, 50_000, 10_000, 0] {
            board.train(50, cap, ONE, 50_000, epsilon);
            for values in all_values(&board) {
                for value in values {
                    assert!(value <= 0);
                    assert!(value >= -(cap as i64) * ONE);
                }
            }
        }
    }
}
