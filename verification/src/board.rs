//! The maze as a decision process: the grid of cell states, the start and
//! goal cells, and the cursor of the walk in progress.

use vstd::prelude::*;
use std::collections::HashSet;
use crate::action::{at, Action};
use crate::fixed::{blend, is_rate, MAX_STEPS, STEP_PENALTY};
use crate::learning::{
    discounted_returns, is_reward, lemma_learned_between, rewards_of, table_replayed, table_taught,
};
use crate::maze::Maze;
use crate::model::{all_zero, layout_ok, zero_based, BoardView};
use crate::state::{first_index_of, index_of, lemma_first_index_of, State, StateView};
use crate::walk::{indices, legs, Leg, Step};

verus! {

/// Calls `HashSet::contains` of std, which tells whether the set holds an
/// element equal to the given one. Pairs of integers are equal exactly when
/// they are the same pair, so the answer is membership in the set's view.
#[verifier::external_body]
fn is_blocked(blocked: &HashSet<(usize, usize)>, p: (usize, usize)) -> (b: bool)
    ensures
        b == blocked@.contains(p),
{
    blocked.contains(&p)
}

/// The state of a cell before any learning: the legal moves of the cell at
/// row `i`, column `j`, each valued zero.
fn fresh_state(
    rows: usize,
    columns: usize,
    blocked: &HashSet<(usize, usize)>,
    i: usize,
    j: usize,
) -> (s: State)
    requires
        i < rows,
        j < columns,
    ensures
        s@.actions == (Maze {
            rows: rows as int,
            cols: columns as int,
            blocked: zero_based(blocked@),
        }).legal_actions((i as int, j as int)),
        s@.wf(),
        all_zero(s@.values),
{
    let ghost maze = Maze { rows: rows as int, cols: columns as int, blocked: zero_based(blocked@) };
    let ghost here = (i as int, j as int);
    let mut actions: Vec<Action> = Vec::new();
    let mut action_values: Vec<i64> = Vec::new();
    if !is_blocked(blocked, (i + 1, j + 1)) {
        if i >= 1 && !is_blocked(blocked, (i, j + 1)) {
            actions.push(Action::Up);
            action_values.push(0);
        }
        if j + 1 < columns && !is_blocked(blocked, (i + 1, j + 2)) {
            actions.push(Action::Right);
            action_values.push(0);
        }
        if i + 1 < rows && !is_blocked(blocked, (i + 2, j + 1)) {
            actions.push(Action::Down);
            action_values.push(0);
        }
        if j >= 1 && !is_blocked(blocked, (i + 1, j)) {
            actions.push(Action::Left);
            action_values.push(0);
        }
    }
    proof {
        assert(maze.passable(here) <==> !blocked@.contains(((i + 1) as usize, (j + 1) as usize)));
        assert(maze.passable(Action::Up.target(here)) <==> i >= 1 && !blocked@.contains(
            (i, (j + 1) as usize),
        ));
        assert(maze.passable(Action::Right.target(here)) <==> j + 1 < columns && !blocked@.contains(
            ((i + 1) as usize, (j + 2) as usize),
        ));
        assert(maze.passable(Action::Down.target(here)) <==> i + 1 < rows && !blocked@.contains(
            ((i + 2) as usize, (j + 1) as usize),
        ));
        assert(maze.passable(Action::Left.target(here)) <==> j >= 1 && !blocked@.contains(
            ((i + 1) as usize, j),
        ));
        assert(actions@ =~= maze.legal_actions(here));
    }
    State { actions, action_values }
}

/// A maze with its learned value estimates and the cursor of the walk in
/// progress.
pub struct Board {
    data: Vec<Vec<State>>,
    dimensions: (usize, usize),
    start: (usize, usize),
    finish: (usize, usize),
    current: (usize, usize),
    blocked: Ghost<Set<(int, int)>>,
}

/// The states of a grid of cells, row by row.
spec fn cells_of(data: Seq<Vec<State>>) -> Seq<Seq<StateView>> {
    Seq::new(data.len(), |r: int| Seq::new(data[r]@.len(), |c: int| data[r]@[c]@))
}

impl View for Board {
    type V = BoardView;

    closed spec fn view(&self) -> BoardView {
        BoardView {
            maze: Maze {
                rows: self.dimensions.0 as int,
                cols: self.dimensions.1 as int,
                blocked: self.blocked@,
            },
            start: at(self.start),
            finish: at(self.finish),
            current: at(self.current),
            cells: cells_of(self.data@),
        }
    }
}

impl Clone for Board {
    fn clone(&self) -> (b: Self)
        ensures
            b@ == self@,
    {
        let mut data: Vec<Vec<State>> = Vec::new();
        let mut i: usize = 0;
        while i < self.data.len()
            invariant
                i <= self.data@.len(),
                data@.len() == i,
                forall|r: int| 0 <= r < i ==> (#[trigger] data@[r])@.len() == self.data@[r]@.len(),
                forall|r: int, c: int|
                    0 <= r < i && 0 <= c < self.data@[r]@.len() ==> (#[trigger] data@[r]@[c])@
                        == self.data@[r]@[c]@,
            decreases self.data@.len() - i,
        {
            let row = &self.data[i];
            let mut copy: Vec<State> = Vec::new();
            let mut j: usize = 0;
            while j < row.len()
                invariant
                    j <= row@.len(),
                    copy@.len() == j,
                    forall|c: int| 0 <= c < j ==> (#[trigger] copy@[c])@ == row@[c]@,
                decreases row@.len() - j,
            {
                copy.push(row[j].clone());
                j += 1;
            }
            data.push(copy);
            i += 1;
        }
        let b = Board {
            data,
            dimensions: self.dimensions,
            start: self.start,
            finish: self.finish,
            current: self.current,
            blocked: self.blocked,
        };
        proof {
            assert(b@.cells =~~= self@.cells);
        }
        b
    }
}

impl Board {
    /// Whether a board can be built from this layout: whether start and
    /// goal lie on the grid, differ, and are not blocked.
    pub fn valid_layout(
        rows: usize,
        columns: usize,
        start: (usize, usize),
        finish: (usize, usize),
        blocked: &HashSet<(usize, usize)>,
    ) -> (ok: bool)
        ensures
            ok == layout_ok(rows, columns, start, finish, blocked@),
    {
        1 <= start.0 && start.0 <= rows && 1 <= start.1 && start.1 <= columns && 1 <= finish.0
            && finish.0 <= rows && 1 <= finish.1 && finish.1 <= columns && !(start.0 == finish.0
            && start.1 == finish.1) && !is_blocked(blocked, start) && !is_blocked(blocked, finish)
    }

    /// Builds the board of a maze with `rows` rows and `columns` columns.
    /// `start`, `finish` and the members of `blocked` are one-based (row,
    /// column) pairs. Every passable cell gets its legal moves, each valued
    /// zero, and the cursor is put on the start cell.
    pub fn new(
        rows: usize,
        columns: usize,
        start: (usize, usize),
        finish: (usize, usize),
        blocked: &HashSet<(usize, usize)>,
    ) -> (b: Board)
        requires
            layout_ok(rows, columns, start, finish, blocked@),
        ensures
            b@.wf(),
            b@.maze == (Maze { rows: rows as int, cols: columns as int, blocked: zero_based(blocked@) }),
            b@.start == (start.0 - 1, start.1 - 1),
            b@.finish == (finish.0 - 1, finish.1 - 1),
            b@.current == b@.start,
            forall|p: (int, int)| b@.maze.inside(p) ==> all_zero(#[trigger] b@.cell(p).values),
            forall|q: (usize, usize)|
                1 <= q.0 <= rows && 1 <= q.1 <= columns && #[trigger] blocked@.contains(q)
                    ==> b@.cell((q.0 - 1, q.1 - 1)).actions.len() == 0,
    {
        let ghost maze = Maze { rows: rows as int, cols: columns as int, blocked: zero_based(blocked@) };
        let mut data: Vec<Vec<State>> = Vec::new();
        let mut i: usize = 0;
        while i < rows
            invariant
                i <= rows,
                data@.len() == i,
                maze == (Maze { rows: rows as int, cols: columns as int, blocked: zero_based(blocked@) }),
                forall|r: int| 0 <= r < i ==> (#[trigger] data@[r])@.len() == columns,
                forall|r: int, c: int|
                    0 <= r < i && 0 <= c < columns ==> {
                        &&& (#[trigger] data@[r]@[c])@.actions == maze.legal_actions((r, c))
                        &&& data@[r]@[c]@.wf()
                        &&& all_zero(data@[r]@[c]@.values)
                    },
            decreases rows - i,
        {
            let mut temp: Vec<State> = Vec::new();
            let mut j: usize = 0;
            while j < columns
                invariant
                    i < rows,
                    j <= columns,
                    temp@.len() == j,
                    maze == (Maze {
                        rows: rows as int,
                        cols: columns as int,
                        blocked: zero_based(blocked@),
                    }),
                    forall|c: int|
                        0 <= c < j ==> {
                            &&& (#[trigger] temp@[c])@.actions == maze.legal_actions((i as int, c))
                            &&& temp@[c]@.wf()
                            &&& all_zero(temp@[c]@.values)
                        },
                decreases columns - j,
            {
                temp.push(fresh_state(rows, columns, blocked, i, j));
                j += 1;
            }
            data.push(temp);
            i += 1;
        }
        let b = Board {
            data,
            dimensions: (rows, columns),
            start: (start.0 - 1, start.1 - 1),
            finish: (finish.0 - 1, finish.1 - 1),
            current: (start.0 - 1, start.1 - 1),
            blocked: Ghost(maze.blocked),
        };
        proof {
            assert(b@.maze == maze);
            assert forall|p: (int, int)| b@.maze.inside(p) implies {
                &&& (#[trigger] b@.cell(p)).actions == b@.maze.legal_actions(p)
                &&& b@.cell(p).wf()
                &&& all_zero(b@.cell(p).values)
            } by {
                assert(b@.cell(p) == b.data@[p.0]@[p.1]@);
            }
            assert forall|q: (usize, usize)|
                1 <= q.0 <= rows && 1 <= q.1 <= columns && #[trigger] blocked@.contains(
                    q,
                ) implies b@.cell((q.0 - 1, q.1 - 1)).actions.len() == 0 by {
                let p = (q.0 - 1, q.1 - 1);
                assert(b@.maze.blocked.contains(p));
                assert(b@.cell(p).actions == b@.maze.legal_actions(p));
            }
        }
        b
    }

    /// The rows and cells of the grid are those of the table of the view.
    proof fn lemma_shape(&self)
        requires
            self@.wf(),
        ensures
            self.data@.len() == self.dimensions.0,
            forall|r: int|
                0 <= r < self.data@.len() ==> (#[trigger] self.data@[r])@.len()
                    == self.dimensions.1,
            forall|r: int, c: int|
                0 <= r < self.dimensions.0 && 0 <= c < self.dimensions.1 ==> (
                #[trigger] self.data@[r]@[c])@ == self@.cell((r, c)),
    {
        assert forall|r: int| 0 <= r < self.data@.len() implies (#[trigger] self.data@[r])@.len()
            == self.dimensions.1 by {
            assert(self@.cells[r].len() == self.data@[r]@.len());
        }
    }

    /// The number of rows of the maze.
    pub fn rows(&self) -> (n: usize)
        ensures
            n == self@.maze.rows,
    {
        self.dimensions.0
    }

    /// The number of columns of the maze.
    pub fn columns(&self) -> (n: usize)
        ensures
            n == self@.maze.cols,
    {
        self.dimensions.1
    }

    /// The start cell, zero-based.
    pub fn start(&self) -> (p: (usize, usize))
        ensures
            at(p) == self@.start,
    {
        self.start
    }

    /// The goal cell, zero-based.
    pub fn finish(&self) -> (p: (usize, usize))
        ensures
            at(p) == self@.finish,
    {
        self.finish
    }

    /// The cell on which the cursor stands, zero-based.
    pub fn current(&self) -> (p: (usize, usize))
        ensures
            at(p) == self@.current,
    {
        self.current
    }

    /// The state of the cell at the zero-based position (`row`, `col`).
    pub fn state(&self, row: usize, col: usize) -> (s: &State)
        requires
            self@.wf(),
            self@.maze.inside((row as int, col as int)),
        ensures
            s@ == self@.cell((row as int, col as int)),
    {
        proof {
            self.lemma_shape();
        }
        &self.data[row][col]
    }

    /// Whether an episode of any length can begin: the cursor stands on the
    /// start cell and the start cell has a legal move.
    pub fn can_start(&self) -> (b: bool)
        requires
            self@.wf(),
        ensures
            b == (self@.current == self@.start && self@.start_is_open()),
            b ==> forall|limit: int| self@.ready(limit),
    {
        proof {
            self.lemma_shape();
        }
        self.current.0 == self.start.0 && self.current.1 == self.start.1
            && self.data[self.start.0][self.start.1].actions.len() > 0
    }

    /// Whether the cursor stands on the goal.
    pub fn at_goal(&self) -> (b: bool)
        ensures
            b == (self@.current == self@.finish),
    {
        self.current.0 == self.finish.0 && self.current.1 == self.finish.1
    }

    /// Moves the cursor one cell along `a` and returns the reward of the
    /// step: nothing if it enters the goal, a penalty of one otherwise. The
    /// move must be legal where the cursor stands.
    pub fn world_model(&mut self, a: &Action) -> (reward: i64)
        requires
            old(self)@.wf(),
            old(self)@.maze.legal(old(self)@.current, *a),
        ensures
            final(self)@ == (BoardView { current: a.target(old(self)@.current), ..old(self)@ }),
            final(self)@.wf(),
            reward == old(self)@.reward_at(a.target(old(self)@.current)),
    {
        proof {
            old(self)@.lemma_wf_with_cursor(a.target(old(self)@.current));
        }
        self.current = moved(self.current, *a);
        if self.at_goal() {
            0
        } else {
            STEP_PENALTY
        }
    }

    /// Puts the cursor back on the start cell.
    pub fn reset(&mut self)
        requires
            old(self)@.wf(),
        ensures
            final(self)@ == (BoardView { current: old(self)@.start, ..old(self)@ }),
            final(self)@.wf(),
    {
        proof {
            old(self)@.lemma_wf_with_cursor(old(self)@.start);
        }
        self.current = self.start;
    }

    /// Walks one episode from the start cell under the epsilon-greedy rule:
    /// until the cursor enters the goal, or `trajectory_limit` steps are
    /// made. The cursor is put back on the start cell afterwards. With
    /// `epsilon` zero nothing is left to chance and the episode is the
    /// greedy walk.
    pub fn episode(&mut self, trajectory_limit: u32, epsilon: i64) -> (steps: Vec<Step>)
        requires
            old(self)@.wf(),
            old(self)@.ready(trajectory_limit as int),
        ensures
            final(self)@ == old(self)@,
            old(self)@.is_episode(steps@, trajectory_limit as int),
            epsilon <= 0 ==> steps@ == old(self)@.greedy_walk(
                old(self)@.start,
                trajectory_limit as nat,
            ),
    {
        let mut count: u32 = 0;
        let mut traj: Vec<Step> = Vec::new();
        while !self.at_goal() && count < trajectory_limit
            invariant
                self@ == (BoardView { current: self@.current, ..old(self)@ }),
                self@.wf(),
                old(self)@.wf(),
                count <= trajectory_limit,
                traj@.len() == count,
                old(self)@.is_walk(traj@),
                self@.current == old(self)@.arrival(traj@),
                trajectory_limit > 0 ==> self@.cell(self@.current).actions.len() > 0,
                epsilon <= 0 ==> traj@ + old(self)@.greedy_walk(
                    self@.current,
                    (trajectory_limit - count) as nat,
                ) == old(self)@.greedy_walk(old(self)@.start, trajectory_limit as nat),
            decreases trajectory_limit - count,
        {
            let curr = self.current;
            let ghost here = self@.current;
            let ghost before = traj@;
            proof {
                self.lemma_shape();
            }
            let action = self.data[curr.0][curr.1].policy(epsilon);
            proof {
                self@.maze.lemma_legal_actions_contains(here, action);
                self@.maze.lemma_arrival_can_leave(here, action);
                assert(self@.cell(action.target(here)).actions == self@.maze.legal_actions(
                    action.target(here),
                ));
            }
            let reward = self.world_model(&action);
            traj.push((curr, action, reward));
            count += 1;
            proof {
                let step = (curr, action, reward);
                old(self)@.lemma_walk_extends(before, step);
                if epsilon <= 0 {
                    assert(old(self)@.cell(here) == self@.cell(here));
                    assert(step == old(self)@.greedy_step(here));
                    old(self)@.lemma_greedy_walk_grows(
                        before,
                        here,
                        (trajectory_limit - count + 1) as nat,
                    );
                }
            }
        }
        proof {
            if epsilon <= 0 {
                old(self)@.lemma_greedy_walk_ends(
                    traj@,
                    self@.current,
                    (trajectory_limit - count) as nat,
                );
            }
        }
        self.reset();
        traj
    }

    /// Learns from one episode. The discounted return of every step is
    /// computed, last step first; then, first step first, the estimate of
    /// each step's move in each step's cell moves toward the step's return
    /// by the fraction `learning_rate` of the distance. A cell that is
    /// visited twice learns twice, the second time from what the first has
    /// left.
    pub fn update_after_trajectory(
        &mut self,
        trajectory: &Vec<Step>,
        discount_rate: i64,
        learning_rate: i64,
    )
        requires
            old(self)@.wf(),
            is_rate(discount_rate as int),
            is_rate(learning_rate as int),
            trajectory@.len() <= MAX_STEPS,
            forall|k: int|
                0 <= k < trajectory@.len() ==> old(self)@.maze.inside(
                    at((#[trigger] trajectory@[k]).0),
                ) && is_reward(trajectory@[k].2),
        ensures
            final(self)@ == old(self)@.after_episode(
                trajectory@,
                discount_rate as int,
                learning_rate as int,
            ),
            final(self)@.wf(),
            learning_rate == 0 ==> final(self)@ == old(self)@,
    {
        let n = trajectory.len();
        let mut rewards: Vec<i64> = Vec::new();
        let mut k: usize = 0;
        while k < n
            invariant
                n == trajectory@.len(),
                k <= n,
                rewards@.len() == k,
                forall|t: int| 0 <= t < k ==> #[trigger] rewards@[t] == trajectory@[t].2,
                forall|t: int| 0 <= t < n ==> is_reward((#[trigger] trajectory@[t]).2),
            decreases n - k,
        {
            rewards.push(trajectory[k].2);
            k += 1;
        }
        assert(rewards@ =~= rewards_of(trajectory@));
        let gains = discounted_returns(&rewards, discount_rate);
        let mut i: usize = 0;
        while i < n
            invariant
                n == trajectory@.len(),
                gains@.len() == n,
                i <= n,
                is_rate(learning_rate as int),
                old(self)@.wf(),
                self@.wf(),
                forall|t: int|
                    0 <= t < n ==> old(self)@.maze.inside(at((#[trigger] trajectory@[t]).0)),
                self@ == (BoardView {
                    cells: table_replayed(
                        old(self)@.cells,
                        trajectory@,
                        gains@,
                        learning_rate as int,
                        i as int,
                    ),
                    ..old(self)@
                }),
            decreases n - i,
        {
            let pos = trajectory[i].0;
            let action = trajectory[i].1;
            let target = gains[i];
            let ghost before = self@;
            let ghost cell = self@.cell(at(pos));
            proof {
                assert(before.maze.inside(at(pos)));
                assert(cell == self.data@[pos.0 as int]@[pos.1 as int]@);
                lemma_first_index_of(cell.actions, action);
                before.lemma_taught_wf(at(pos), action, target, learning_rate as int);
            }
            let found = index_of(self.data[pos.0][pos.1].actions.as_slice(), &action);
            if let Some(index) = found {
                let value = self.data[pos.0][pos.1].action_values[index];
                proof {
                    lemma_learned_between(value, target, learning_rate as int);
                }
                let improved = blend(value, target, learning_rate);
                self.data[pos.0][pos.1].action_values[index] = improved;
                assert(first_index_of(cell.actions, action) == Some(index as int));
            } else {
                assert(first_index_of(cell.actions, action) is None);
            }
            proof {
                assert(self@.cells =~~= table_taught(
                    before.cells,
                    at(pos),
                    action,
                    target,
                    learning_rate as int,
                ));
            }
            i += 1;
        }
        proof {
            if learning_rate == 0 {
                old(self)@.lemma_zero_rate_learns_nothing(trajectory@, discount_rate as int);
            }
        }
    }

    /// Trains for `num` episodes: each is walked from the start cell under
    /// the epsilon-greedy rule, with at most `trajectory_limit` steps, and
    /// then learned from.
    pub fn train(
        &mut self,
        num: u32,
        trajectory_limit: u32,
        discount_rate: i64,
        learning_rate: i64,
        epsilon: i64,
    )
        requires
            old(self)@.wf(),
            old(self)@.ready(if num > 0 { trajectory_limit as int } else { 0 }),
            is_rate(discount_rate as int),
            is_rate(learning_rate as int),
        ensures
            final(self)@.wf(),
            final(self)@ == (BoardView { cells: final(self)@.cells, ..old(self)@ }),
            exists|episodes: Seq<Seq<Step>>|
                {
                    &&& episodes.len() == num
                    &&& old(self)@.is_training(
                        episodes,
                        trajectory_limit as int,
                        discount_rate as int,
                        learning_rate as int,
                    )
                    &&& final(self)@ == old(self)@.after_training(
                        episodes,
                        discount_rate as int,
                        learning_rate as int,
                    )
                },
            epsilon <= 0 ==> final(self)@ == old(self)@.greedily_trained(
                num as nat,
                trajectory_limit as nat,
                discount_rate as int,
                learning_rate as int,
            ),
            learning_rate == 0 ==> final(self)@ == old(self)@,
    {
        let ghost mut episodes: Seq<Seq<Step>> = Seq::empty();
        let mut done: u32 = 0;
        while done < num
            invariant
                done <= num,
                is_rate(discount_rate as int),
                is_rate(learning_rate as int),
                self@.wf(),
                old(self)@.wf(),
                old(self)@.ready(if num > 0 { trajectory_limit as int } else { 0 }),
                self@ == (BoardView { cells: self@.cells, ..old(self)@ }),
                episodes.len() == done,
                old(self)@.is_training(
                    episodes,
                    trajectory_limit as int,
                    discount_rate as int,
                    learning_rate as int,
                ),
                self@ == old(self)@.after_training(
                    episodes,
                    discount_rate as int,
                    learning_rate as int,
                ),
                epsilon <= 0 ==> self@ == old(self)@.greedily_trained(
                    done as nat,
                    trajectory_limit as nat,
                    discount_rate as int,
                    learning_rate as int,
                ),
                learning_rate == 0 ==> self@ == old(self)@,
            decreases num - done,
        {
            let ghost before = self@;
            let ghost earlier = episodes;
            proof {
                assert(before.cell(before.start).actions == before.maze.legal_actions(
                    before.start,
                ));
                assert(old(self)@.cell(before.start).actions == before.maze.legal_actions(
                    before.start,
                ));
            }
            let traj = self.episode(trajectory_limit, epsilon);
            proof {
                before.lemma_walk_can_be_learned(traj@);
            }
            self.update_after_trajectory(&traj, discount_rate, learning_rate);
            done += 1;
            proof {
                episodes = earlier.push(traj@);
                assert(episodes.drop_last() =~= earlier);
                assert forall|i: int| 0 <= i < episodes.len() implies old(self)@.after_training(
                    episodes.take(i),
                    discount_rate as int,
                    learning_rate as int,
                ).is_episode(#[trigger] episodes[i], trajectory_limit as int) by {
                    if i < earlier.len() {
                        assert(episodes.take(i) =~= earlier.take(i));
                        assert(episodes[i] == earlier[i]);
                    } else {
                        assert(episodes.take(i) =~= earlier);
                    }
                }
            }
        }
    }

    /// Walks one episode from the start cell, as [`Board::episode`] does,
    /// and returns its legs: for every step the cell it left and the cell it
    /// entered. Nothing is learned.
    pub fn trajectory(&mut self, trajectory_limit: u32, epsilon: i64) -> (path: Vec<Leg>)
        requires
            old(self)@.wf(),
            old(self)@.ready(trajectory_limit as int),
        ensures
            final(self)@ == old(self)@,
            path@.len() <= trajectory_limit,
            exists|steps: Seq<Step>|
                old(self)@.is_episode(steps, trajectory_limit as int) && path@ == legs(steps),
            epsilon <= 0 ==> path@ == legs(
                old(self)@.greedy_walk(old(self)@.start, trajectory_limit as nat),
            ),
    {
        let steps = self.episode(trajectory_limit, epsilon);
        let mut final_vec: Vec<Leg> = Vec::new();
        let mut i: usize = 0;
        while i < steps.len()
            invariant
                i <= steps@.len(),
                self@.wf(),
                self@.is_walk(steps@),
                final_vec@.len() == i,
                forall|k: int| 0 <= k < i ==> #[trigger] final_vec@[k] == legs(steps@)[k],
            decreases steps@.len() - i,
        {
            let curr = steps[i].0;
            let action = steps[i].1;
            assert(self@.maze.legal(at(steps@[i as int].0), steps@[i as int].1));
            let next = moved(curr, action);
            final_vec.push((curr, next));
            i += 1;
        }
        assert(final_vec@ =~= legs(steps@));
        final_vec
    }
}

/// The cell one step along `a` from `pos`. The step must not leave the range
/// of the machine's indices.
pub fn moved(pos: (usize, usize), a: Action) -> (q: (usize, usize))
    requires
        0 <= a.target(at(pos)).0 <= usize::MAX,
        0 <= a.target(at(pos)).1 <= usize::MAX,
    ensures
        at(q) == a.target(at(pos)),
        q == indices(a.target(at(pos))),
{
    match a {
        Action::Up => (pos.0 - 1, pos.1),
        Action::Right => (pos.0, pos.1 + 1),
        Action::Down => (pos.0 + 1, pos.1),
        Action::Left => (pos.0, pos.1 - 1),
    }
}

} // verus!
