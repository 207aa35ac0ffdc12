//! What training preserves: the shape of the board, and bounds on its value
//! estimates.

use vstd::prelude::*;
use crate::action::{at, Action};
use crate::fixed::{is_rate, lemma_scaled_bounds, MAX_STEPS, ONE};
use crate::learning::{
    lemma_learned_between, lemma_return_bounds, return_from, returns_of, rewards_of,
    table_replayed, table_taught,
};
use crate::model::BoardView;
use crate::state::lemma_first_index_of;
use crate::walk::Step;

verus! {

/// Where no reward is positive, no return is.
pub proof fn lemma_return_not_positive(rewards: Seq<i64>, discount: int, k: int)
    requires
        is_rate(discount),
        forall|i: int| 0 <= i < rewards.len() ==> #[trigger] rewards[i] <= 0,
    ensures
        return_from(rewards, discount, k) <= 0,
    decreases rewards.len() - k,
{
    if 0 <= k < rewards.len() {
        lemma_return_not_positive(rewards, discount, k + 1);
        lemma_scaled_bounds(discount, return_from(rewards, discount, k + 1));
    }
}

impl BoardView {
    /// Every value estimate of the board lies between `floor` and zero.
    pub open spec fn values_within(self, floor: int) -> bool {
        forall|p: (int, int), i: int|
            self.maze.inside(p) && 0 <= i < self.cell(p).values.len() ==> floor
                <= #[trigger] self.cell(p).values[i] <= 0
    }

    /// Teaching a cell a return between `floor` and zero keeps every
    /// estimate between `floor` and zero.
    pub proof fn lemma_taught_within(
        self,
        p: (int, int),
        a: Action,
        target: i64,
        rate: int,
        floor: int,
    )
        requires
            self.wf(),
            self.maze.inside(p),
            is_rate(rate),
            self.values_within(floor),
            floor <= target <= 0,
        ensures
            (BoardView { cells: table_taught(self.cells, p, a, target, rate), ..self }).wf(),
            (BoardView {
                cells: table_taught(self.cells, p, a, target, rate),
                ..self
            }).values_within(floor),
    {
        let next = BoardView { cells: table_taught(self.cells, p, a, target, rate), ..self };
        self.lemma_taught_wf(p, a, target, rate);
        lemma_first_index_of(self.cell(p).actions, a);
        assert(self.cell(p).wf());
        assert(self.cells[p.0].len() == self.maze.cols);
        assert forall|q: (int, int), i: int|
            next.maze.inside(q) && 0 <= i < next.cell(q).values.len() implies floor
            <= #[trigger] next.cell(q).values[i] <= 0 by {
            assert(self.cells[q.0].len() == self.maze.cols);
            if q != p {
                assert(next.cell(q) == self.cell(q));
                assert(floor <= self.cell(q).values[i] <= 0);
            } else {
                assert(floor <= self.cell(p).values[i] <= 0);
                lemma_learned_between(self.cell(p).values[i], target, rate);
            }
        }
    }

    /// Learning from the first `n` steps of an episode whose returns lie
    /// between `floor` and zero keeps the board well formed and every
    /// estimate between `floor` and zero.
    pub proof fn lemma_replayed_within(
        self,
        steps: Seq<Step>,
        gains: Seq<i64>,
        rate: int,
        n: int,
        floor: int,
    )
        requires
            self.wf(),
            is_rate(rate),
            self.values_within(floor),
            0 <= n <= steps.len(),
            n <= gains.len(),
            forall|k: int| 0 <= k < n ==> self.maze.inside(at((#[trigger] steps[k]).0)),
            forall|k: int| 0 <= k < n ==> floor <= #[trigger] gains[k] <= 0,
        ensures
            (BoardView { cells: table_replayed(self.cells, steps, gains, rate, n), ..self }).wf(),
            (BoardView {
                cells: table_replayed(self.cells, steps, gains, rate, n),
                ..self
            }).values_within(floor),
        decreases n,
    {
        if n > 0 {
            self.lemma_replayed_within(steps, gains, rate, n - 1, floor);
            let before = BoardView {
                cells: table_replayed(self.cells, steps, gains, rate, n - 1),
                ..self
            };
            assert(before.maze.inside(at(steps[n - 1].0)));
            assert(floor <= gains[n - 1] <= 0);
            before.lemma_taught_within(
                at(steps[n - 1].0),
                steps[n - 1].1,
                gains[n - 1],
                rate,
                floor,
            );
        } else {
            assert(BoardView { cells: table_replayed(self.cells, steps, gains, rate, n), ..self }
                == self);
        }
    }

    /// Learning from an episode keeps the board well formed, and keeps its
    /// estimates between `floor` and zero if `floor` is no higher than
    /// minus the step cap.
    pub proof fn lemma_episode_keeps_values_within(
        self,
        steps: Seq<Step>,
        limit: int,
        discount: int,
        rate: int,
        floor: int,
    )
        requires
            self.wf(),
            self.is_episode(steps, limit),
            limit <= MAX_STEPS,
            is_rate(discount),
            is_rate(rate),
            self.values_within(floor),
            floor <= -limit * ONE,
        ensures
            self.after_episode(steps, discount, rate).wf(),
            self.after_episode(steps, discount, rate).values_within(floor),
            self.after_episode(steps, discount, rate) == (BoardView {
                cells: self.after_episode(steps, discount, rate).cells,
                ..self
            }),
    {
        let rewards = rewards_of(steps);
        let gains = returns_of(rewards, discount);
        self.lemma_walk_can_be_learned(steps);
        assert forall|k: int| 0 <= k < steps.len() implies floor <= #[trigger] gains[k] <= 0 by {
            assert forall|i: int| 0 <= i < rewards.len() implies #[trigger] rewards[i] <= 0 by {
                assert(steps[i].2 == self.reward_at(crate::walk::landing(steps[i])));
            }
            lemma_return_not_positive(rewards, discount, k);
            lemma_return_bounds(rewards, discount, k);
            assert((rewards.len() - k) * ONE <= limit * ONE) by (nonlinear_arith)
                requires
                    0 <= rewards.len() - k <= limit,
            ;
            assert(limit * ONE <= 0x1_0000_0000 * ONE) by (nonlinear_arith)
                requires
                    limit <= 0x1_0000_0000,
            ;
        }
        self.lemma_replayed_within(steps, gains, rate, steps.len() as int, floor);
    }

    /// Training keeps the board well formed and touches nothing but the
    /// value estimates; and it keeps the estimates between `floor` and zero
    /// if `floor` is no higher than minus the step cap. A new board, whose
    /// estimates are zero, thus never holds an estimate above zero or below
    /// minus the step cap.
    pub proof fn lemma_training_keeps_values_within(
        self,
        episodes: Seq<Seq<Step>>,
        limit: int,
        discount: int,
        rate: int,
        floor: int,
    )
        requires
            self.wf(),
            self.is_training(episodes, limit, discount, rate),
            limit <= MAX_STEPS,
            is_rate(discount),
            is_rate(rate),
            self.values_within(floor),
            floor <= -limit * ONE,
        ensures
            self.after_training(episodes, discount, rate).wf(),
            self.after_training(episodes, discount, rate).values_within(floor),
            self.after_training(episodes, discount, rate) == (BoardView {
                cells: self.after_training(episodes, discount, rate).cells,
                ..self
            }),
        decreases episodes.len(),
    {
        if episodes.len() > 0 {
            let earlier = episodes.drop_last();
            assert forall|i: int| 0 <= i < earlier.len() implies self.after_training(
                earlier.take(i),
                discount,
                rate,
            ).is_episode(#[trigger] earlier[i], limit) by {
                assert(earlier.take(i) =~= episodes.take(i));
                assert(earlier[i] == episodes[i]);
            }
            self.lemma_training_keeps_values_within(earlier, limit, discount, rate, floor);
            let before = self.after_training(earlier, discount, rate);
            assert(episodes.take(episodes.len() - 1) =~= earlier);
            assert(before.is_episode(episodes[episodes.len() - 1], limit));
            before.lemma_episode_keeps_values_within(episodes.last(), limit, discount, rate, floor);
        }
    }
}

} // verus!
