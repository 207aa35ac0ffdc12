use maze_rl::{Action, Board, ONE};
use std::collections::HashSet;

fn open_board() -> Board {
    let blocked: HashSet<(usize, usize)> = HashSet::new();
    Board::new(3, 3, (1, 1), (3, 3), &blocked)
}

fn split_board() -> Board {
    let mut blocked: HashSet<(usize, usize)> = HashSet::new();
    blocked.insert((2, 1));
    blocked.insert((2, 2));
    blocked.insert((2, 3));
    Board::new(3, 3, (1, 1), (3, 3), &blocked)
}

fn target(pos: (usize, usize), action: Action) -> (usize, usize) {
    match action {
        Action::Up => (pos.0 - 1, pos.1),
        Action::Right => (pos.0, pos.1 + 1),
        Action::Down => (pos.0 + 1, pos.1),
        Action::Left => (pos.0, pos.1 - 1),
    }
}

fn expect_episode(board: &Board, steps: &Vec<((usize, usize), Action, i64)>, limit: usize) {
    assert!(steps.len() <= limit);
    let mut here = board.start();
    for (pos, action, reward) in steps.iter() {
        assert_eq!(*pos, here);
        assert_ne!(*pos, board.finish());
        assert!(board.state(pos.0, pos.1).actions.contains(action));
        here = target(*pos, *action);
        assert!(here.0 < board.rows() && here.1 < board.columns());
        let expected = if here == board.finish() { 0 } else { -ONE };
        assert_eq!(*reward, expected);
    }
    if steps.len() < limit {
        assert_eq!(here, board.finish());
    }
}

#[test]
fn world_model_moves_one_cell_and_pays_the_step() {
    let mut board = open_board();
    assert_eq!(board.world_model(&Action::Right), -ONE);
    assert_eq!(board.current(), (0, 1));
    assert_eq!(board.world_model(&Action::Down), -ONE);
    assert_eq!(board.current(), (1, 1));
    assert_eq!(board.world_model(&Action::Left), -ONE);
    assert_eq!(board.current(), (1, 0));
    assert_eq!(board.world_model(&Action::Up), -ONE);
    assert_eq!(board.current(), (0, 0));
    board.reset();
    assert_eq!(board.current(), board.start());
}

#[test]
fn world_model_pays_nothing_at_the_goal() {
    let mut board = open_board();
    assert_eq!(board.world_model(&Action::Down), -ONE);
    assert_eq!(board.world_model(&Action::Down), -ONE);
    assert_eq!(board.world_model(&Action::Right), -ONE);
    assert!(!board.at_goal());
    assert_eq!(board.world_model(&Action::Right), 0);
    assert_eq!(board.current(), (2, 2));
    assert!(board.at_goal());
    assert!(!board.can_start());
    board.reset();
    assert_eq!(board.current(), (0, 0));
    assert!(board.can_start());
}

#[test]
fn greedy_episode_on_a_fresh_board() {
    let mut board = open_board();
    let steps = board.episode(5, 0);
    assert_eq!(
        steps,
        vec![
            ((0, 0), Action::Right, -ONE),
            ((0, 1), Action::Right, -ONE),
            ((0, 2), Action::Down, -ONE),
            ((1, 2), Action::Up, -ONE),
            ((0, 2), Action::Down, -ONE),
        ]
    );
    assert_eq!(board.current(), board.start());
}

#[test]
fn greedy_episode_is_the_same_every_time() {
    let mut board = open_board();
    board.train(40, 30, ONE, 50_000, 40_000);
    let first = board.episode(30, 0);
    for _ in 0..20 {
        assert_eq!(board.episode(30, 0), first);
    }
}

#[test]
fn episode_stops_at_the_goal() {
    let blocked: HashSet<(usize, usize)> = HashSet::new();
    let mut board = Board::new(1, 2, (1, 1), (1, 2), &blocked);
    for epsilon in [0, 50_000, ONE] {
        assert_eq!(board.episode(10, epsilon), vec![((0, 0), Action::Right, 0)]);
        assert_eq!(board.current(), (0, 0));
    }
}

#[test]
fn episode_with_no_steps_allowed_is_empty() {
    let mut board = open_board();
    assert_eq!(board.episode(0, ONE).len(), 0);
    assert_eq!(board.trajectory(0, ONE).len(), 0);
    assert_eq!(board.current(), board.start());
}

#[test]
fn enclosed_start_allows_an_episode_of_no_steps() {
    let mut blocked: HashSet<(usize, usize)> = HashSet::new();
    blocked.insert((1, 2));
    blocked.insert((2, 1));
    let mut board = Board::new(3, 3, (1, 1), (3, 3), &blocked);
    assert!(!board.can_start());
    assert_eq!(board.episode(0, ONE).len(), 0);
    assert_eq!(board.trajectory(0, 0).len(), 0);
    board.train(0, 10, ONE, 50_000, ONE);
    board.train(10, 0, ONE, 50_000, ONE);
    assert_eq!(board.current(), board.start());
}

#[test]
fn episode_is_a_walk_from_the_start() {
    let mut board = open_board();
    for epsilon in [0, 10_000, 50_000, ONE] {
        for limit in [1u32, 2, 7, 50] {
            for _ in 0..20 {
                let steps = board.episode(limit, epsilon);
                expect_episode(&board, &steps, limit as usize);
                assert_eq!(board.current(), board.start());
            }
        }
    }
}

#[test]
fn episode_without_a_way_to_the_goal_runs_to_the_cap() {
    let mut board = split_board();
    for limit in [1u32, 9, 200] {
        let steps = board.episode(limit, 50_000);
        assert_eq!(steps.len(), limit as usize);
        expect_episode(&board, &steps, limit as usize);
        for step in steps.iter() {
            assert_eq!(step.0 .0, 0);
            assert_eq!(step.2, -ONE);
        }
        assert_eq!(board.current(), board.start());
    }
}

#[test]
fn training_without_a_way_to_the_goal_still_ends() {
    let mut board = split_board();
    board.train(25, 40, ONE, 50_000, 20_000);
    assert_eq!(board.current(), board.start());
    assert_eq!(board.trajectory(40, 0).len(), 40);
    for col in 0..3 {
        for value in board.state(0, col).action_values.iter() {
            assert!(*value <= 0 && *value >= -40 * ONE);
        }
        assert_eq!(board.state(2, col).action_values, vec![0; board.state(2, col).actions.len()]);
    }
}

#[test]
fn trajectory_is_a_chain_of_legs() {
    let mut board = open_board();
    for epsilon in [0, 30_000, ONE] {
        for limit in [1u32, 3, 25] {
            let path = board.trajectory(limit, epsilon);
            assert!(path.len() <= limit as usize);
            let mut here = board.start();
            for (from, to) in path.iter() {
                assert_eq!(*from, here);
                let rows = from.0.abs_diff(to.0);
                let cols = from.1.abs_diff(to.1);
                assert_eq!(rows + cols, 1);
                assert!(to.0 < 3 && to.1 < 3);
                here = *to;
            }
            if path.len() < limit as usize {
                assert_eq!(here, board.finish());
            }
            assert_eq!(board.current(), board.start());
        }
    }
}

#[test]
fn trajectory_of_a_fresh_board_is_the_greedy_walk() {
    let mut board = open_board();
    assert_eq!(
        board.trajectory(4, 0),
        vec![((0, 0), (0, 1)), ((0, 1), (0, 2)), ((0, 2), (1, 2)), ((1, 2), (0, 2))]
    );
}

#[test]
fn trajectory_learns_nothing() {
    let mut board = open_board();
    board.train(10, 20, ONE, 50_000, 30_000);
    let mut before = Vec::new();
    for row in 0..3 {
        for col in 0..3 {
            before.push(board.state(row, col).action_values.clone());
        }
    }
    for _ in 0..10 {
        board.trajectory(20, 50_000);
    }
    let mut after = Vec::new();
    for row in 0..3 {
        for col in 0..3 {
            after.push(board.state(row, col).action_values.clone());
        }
    }
    assert_eq!(before, after);
}

#[test]
fn first_greedy_training_episode() {
    let mut board = open_board();
    board.train(1, 5, ONE, 50_000, 0);
    assert_eq!(board.state(0, 0).action_values, vec![-250_000, 0]);
    assert_eq!(board.state(0, 1).action_values, vec![-200_000, 0, 0]);
    assert_eq!(board.state(0, 2).action_values, vec![-125_000, 0]);
    assert_eq!(board.state(1, 2).action_values, vec![-100_000, 0, 0]);
    assert_eq!(board.state(1, 1).action_values, vec![0, 0, 0, 0]);
    assert_eq!(board.current(), board.start());
}

#[test]
fn second_greedy_training_episode() {
    let mut board = open_board();
    board.train(2, 5, ONE, 50_000, 0);
    assert_eq!(board.state(0, 0).action_values, vec![-250_000, -187_500]);
    assert_eq!(board.state(1, 0).action_values, vec![-200_000, 0, 0]);
    assert_eq!(board.state(0, 1).action_values, vec![-200_000, 0, 0]);
    assert_eq!(board.state(1, 1).action_values, vec![0, 0, 0, 0]);
}

#[test]
fn training_for_no_episodes_changes_nothing() {
    let mut board = open_board();
    board.train(0, 100, ONE, 50_000, 50_000);
    for row in 0..3 {
        for col in 0..3 {
            for value in board.state(row, col).action_values.iter() {
                assert_eq!(*value, 0);
            }
        }
    }
}

fn trained_path_length() -> usize {
    let mut board = open_board();
    board.train(5_000, 1_000, ONE, 50_000, 10_000);
    assert_eq!(board.current(), board.start());
    board.trajectory(1_000, 0).len()
}

#[test]
fn training_converges_to_a_shortest_path() {
    let mut shortest = 0;
    for _ in 0..5 {
        if trained_path_length() == 4 {
            shortest += 1;
        }
    }
    assert!(shortest >= 4, "only {} of 5 trainings found a shortest path", shortest);
}
