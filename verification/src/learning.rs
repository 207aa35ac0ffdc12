//! Discounted returns and the value update that follows an episode.

use vstd::prelude::*;
use crate::action::{at, Action};
use crate::fixed::{
    blended, is_rate, lemma_blended_between, lemma_scaled_bounds, lemma_scaled_by_one,
    lemma_scaled_by_zero, scale, scaled, MAX_STEPS, ONE,
};
use crate::model::BoardView;
use crate::state::{first_index_of, StateView};
use crate::walk::Step;

verus! {

/// A reward is at most one in magnitude.
pub open spec fn is_reward(r: i64) -> bool {
    -ONE <= r <= ONE
}

/// Every element is a reward.
pub open spec fn all_rewards(rewards: Seq<i64>) -> bool {
    forall|i: int| 0 <= i < rewards.len() ==> is_reward(#[trigger] rewards[i])
}

/// The discounted return of step `k` of an episode with these rewards: the
/// reward of the step plus the discounted return of the step after it. Past
/// the end of the episode nothing is earned.
pub open spec fn return_from(rewards: Seq<i64>, discount: int, k: int) -> int
    decreases rewards.len() - k,
{
    if 0 <= k < rewards.len() {
        rewards[k] + scaled(discount, return_from(rewards, discount, k + 1))
    } else {
        0
    }
}

/// The discounted returns of all steps of an episode, first step first.
pub open spec fn returns_of(rewards: Seq<i64>, discount: int) -> Seq<i64> {
    Seq::new(rewards.len(), |k: int| return_from(rewards, discount, k) as i64)
}

/// A return is no larger in magnitude than the number of steps that are
/// left.
pub proof fn lemma_return_bounds(rewards: Seq<i64>, discount: int, k: int)
    requires
        is_rate(discount),
        all_rewards(rewards),
        0 <= k <= rewards.len(),
    ensures
        -(rewards.len() - k) * ONE <= return_from(rewards, discount, k) <= (rewards.len() - k)
            * ONE,
    decreases rewards.len() - k,
{
    if k < rewards.len() {
        lemma_return_bounds(rewards, discount, k + 1);
        lemma_scaled_bounds(discount, return_from(rewards, discount, k + 1));
        assert(is_reward(rewards[k]));
    }
}

/// Without discounting, the return of a step is its reward plus the return
/// of the next step, exactly.
pub proof fn lemma_undiscounted_return(rewards: Seq<i64>, k: int)
    requires
        0 <= k < rewards.len(),
    ensures
        return_from(rewards, ONE as int, k) == rewards[k] + return_from(rewards, ONE as int, k + 1),
{
    lemma_scaled_by_one(return_from(rewards, ONE as int, k + 1));
}

/// The return of the last step is its reward.
pub proof fn lemma_last_return(rewards: Seq<i64>, discount: int)
    requires
        rewards.len() > 0,
    ensures
        return_from(rewards, discount, rewards.len() - 1) == rewards.last(),
{
    assert(return_from(rewards, discount, rewards.len() as int) == 0);
    assert(discount * 0 == 0);
}

/// The discounted return of every step of an episode with the given
/// rewards, first step first.
pub fn discounted_returns(rewards: &Vec<i64>, discount_rate: i64) -> (gains: Vec<i64>)
    requires
        is_rate(discount_rate as int),
        all_rewards(rewards@),
        rewards@.len() <= MAX_STEPS,
    ensures
        gains@.len() == rewards@.len(),
        forall|k: int|
            0 <= k < rewards@.len() ==> #[trigger] gains@[k] == return_from(
                rewards@,
                discount_rate as int,
                k,
            ),
        gains@ == returns_of(rewards@, discount_rate as int),
{
    let n = rewards.len();
    let mut backward: Vec<i64> = Vec::new();
    let mut next: i64 = 0;
    let mut i: usize = 0;
    while i < n
        invariant
            n == rewards@.len(),
            n <= MAX_STEPS,
            is_rate(discount_rate as int),
            all_rewards(rewards@),
            i <= n,
            backward@.len() == i,
            next == return_from(rewards@, discount_rate as int, n - i),
            forall|t: int|
                0 <= t < i ==> #[trigger] backward@[t] == return_from(
                    rewards@,
                    discount_rate as int,
                    n - 1 - t,
                ),
        decreases n - i,
    {
        let k = n - 1 - i;
        proof {
            lemma_return_bounds(rewards@, discount_rate as int, k + 1);
            lemma_return_bounds(rewards@, discount_rate as int, k as int);
            lemma_scaled_bounds(discount_rate as int, next as int);
            assert(is_reward(rewards@[k as int]));
            assert((n - k) * ONE <= 0x1_0000_0000 * ONE) by (nonlinear_arith)
                requires
                    0 <= n - k <= 0x1_0000_0000,
            ;
        }
        let gain = rewards[k] + scale(discount_rate, next);
        backward.push(gain);
        next = gain;
        i += 1;
    }
    let mut gains: Vec<i64> = Vec::new();
    let mut k: usize = 0;
    while k < n
        invariant
            n == rewards@.len(),
            backward@.len() == n,
            k <= n,
            gains@.len() == k,
            forall|t: int|
                0 <= t < n ==> #[trigger] backward@[t] == return_from(
                    rewards@,
                    discount_rate as int,
                    n - 1 - t,
                ),
            forall|t: int|
                0 <= t < k ==> #[trigger] gains@[t] == return_from(
                    rewards@,
                    discount_rate as int,
                    t,
                ),
        decreases n - k,
    {
        gains.push(backward[n - 1 - k]);
        k += 1;
    }
    proof {
        assert(gains@ =~= returns_of(rewards@, discount_rate as int));
    }
    gains
}

/// The rewards of the steps of a walk, in order.
pub open spec fn rewards_of(steps: Seq<Step>) -> Seq<i64> {
    Seq::new(steps.len(), |k: int| steps[k].2)
}

/// The value estimate `value` after it has learned of the return `target`
/// at learning rate `rate`: it has moved toward the return by that fraction
/// of the distance.
pub open spec fn learned(value: i64, target: i64, rate: int) -> i64 {
    blended(value as int, target as int, rate) as i64
}

/// An estimate that learns stays between its old value and the return.
pub proof fn lemma_learned_between(value: i64, target: i64, rate: int)
    requires
        is_rate(rate),
    ensures
        learned(value, target, rate) == blended(value as int, target as int, rate),
        value <= target ==> value <= learned(value, target, rate) <= target,
        target <= value ==> target <= learned(value, target, rate) <= value,
        rate == 0 ==> learned(value, target, rate) == value,
        rate == ONE ==> learned(value, target, rate) == target,
{
    lemma_blended_between(value as int, target as int, rate);
    lemma_scaled_by_zero(target - value);
    lemma_scaled_by_one(target - value);
}

impl StateView {
    /// The cell after its estimate for move `a` has learned of the return
    /// `target`. The estimate is that of the first occurrence of the move; a
    /// cell without the move stays as it is.
    pub open spec fn taught(self, a: Action, target: i64, rate: int) -> StateView {
        match first_index_of(self.actions, a) {
            Some(i) => StateView {
                actions: self.actions,
                values: self.values.update(i, learned(self.values[i], target, rate)),
            },
            None => self,
        }
    }
}

/// The table of cells after the cell at `p` has been taught.
pub open spec fn table_taught(
    cells: Seq<Seq<StateView>>,
    p: (int, int),
    a: Action,
    target: i64,
    rate: int,
) -> Seq<Seq<StateView>> {
    cells.update(p.0, cells[p.0].update(p.1, cells[p.0][p.1].taught(a, target, rate)))
}

/// The table of cells after the first `n` steps of an episode have been
/// learned from, one after the other, each with its return: a later step
/// finds the estimates that the earlier ones have left.
pub open spec fn table_replayed(
    cells: Seq<Seq<StateView>>,
    steps: Seq<Step>,
    gains: Seq<i64>,
    rate: int,
    n: int,
) -> Seq<Seq<StateView>>
    decreases n,
{
    if n <= 0 {
        cells
    } else {
        table_taught(
            table_replayed(cells, steps, gains, rate, n - 1),
            at(steps[n - 1].0),
            steps[n - 1].1,
            gains[n - 1],
            rate,
        )
    }
}

impl BoardView {
    /// The board after it has learned from an episode, at the given discount
    /// and learning rates.
    pub open spec fn after_episode(self, steps: Seq<Step>, discount: int, rate: int) -> BoardView {
        BoardView {
            cells: table_replayed(
                self.cells,
                steps,
                returns_of(rewards_of(steps), discount),
                rate,
                steps.len() as int,
            ),
            ..self
        }
    }

    /// The board after it has learned from each of the episodes in turn.
    pub open spec fn after_training(
        self,
        episodes: Seq<Seq<Step>>,
        discount: int,
        rate: int,
    ) -> BoardView
        decreases episodes.len(),
    {
        if episodes.len() == 0 {
            self
        } else {
            self.after_training(episodes.drop_last(), discount, rate).after_episode(
                episodes.last(),
                discount,
                rate,
            )
        }
    }

    /// Each of the episodes is an episode of the board as the episodes
    /// before it have left it.
    pub open spec fn is_training(
        self,
        episodes: Seq<Seq<Step>>,
        limit: int,
        discount: int,
        rate: int,
    ) -> bool {
        forall|i: int|
            0 <= i < episodes.len() ==> self.after_training(
                episodes.take(i),
                discount,
                rate,
            ).is_episode(#[trigger] episodes[i], limit)
    }

    /// The board after `n` rounds of greedy training: each round walks the
    /// greedy episode of the board as it then is, and learns from it.
    pub open spec fn greedily_trained(self, n: nat, limit: nat, discount: int, rate: int) -> BoardView
        decreases n,
    {
        if n == 0 {
            self
        } else {
            let before = self.greedily_trained((n - 1) as nat, limit, discount, rate);
            before.after_episode(before.greedy_walk(before.start, limit), discount, rate)
        }
    }
}

/// Teaching at learning rate zero changes nothing.
pub proof fn lemma_zero_rate_teaches_nothing(
    cells: Seq<Seq<StateView>>,
    steps: Seq<Step>,
    gains: Seq<i64>,
    n: int,
)
    requires
        n <= steps.len(),
        n <= gains.len(),
        forall|k: int|
            0 <= k < n ==> {
                &&& 0 <= at((#[trigger] steps[k]).0).0 < cells.len()
                &&& 0 <= at(steps[k].0).1 < cells[at(steps[k].0).0].len()
                &&& cells[at(steps[k].0).0][at(steps[k].0).1].wf()
            },
    ensures
        table_replayed(cells, steps, gains, 0, n) == cells,
    decreases n,
{
    if n > 0 {
        lemma_zero_rate_teaches_nothing(cells, steps, gains, n - 1);
        let p = at(steps[n - 1].0);
        let cell = cells[p.0][p.1];
        let a = steps[n - 1].1;
        crate::state::lemma_first_index_of(cell.actions, a);
        match first_index_of(cell.actions, a) {
            Some(i) => {
                lemma_learned_between(cell.values[i], gains[n - 1], 0);
                assert(cell.values.update(i, cell.values[i]) =~= cell.values);
            },
            None => {},
        }
        assert(cell.taught(a, gains[n - 1], 0) == cell);
        assert(cells[p.0].update(p.1, cell) =~= cells[p.0]);
        assert(cells.update(p.0, cells[p.0]) =~= cells);
    }
}

impl BoardView {
    /// Teaching a cell keeps the board well formed: the moves stay and each
    /// keeps an estimate.
    pub proof fn lemma_taught_wf(self, p: (int, int), a: Action, target: i64, rate: int)
        requires
            self.wf(),
            self.maze.inside(p),
        ensures
            (BoardView { cells: table_taught(self.cells, p, a, target, rate), ..self }).wf(),
    {
        let next = BoardView { cells: table_taught(self.cells, p, a, target, rate), ..self };
        crate::state::lemma_first_index_of(self.cell(p).actions, a);
        assert(self.cell(p).wf());
        assert(self.cells[p.0].len() == self.maze.cols);
        assert forall|r: int| 0 <= r < next.maze.rows implies (#[trigger] next.cells[r]).len()
            == next.maze.cols by {
            assert(self.cells[r].len() == self.maze.cols);
        }
        assert forall|q: (int, int)| next.maze.inside(q) implies {
            &&& (#[trigger] next.cell(q)).actions == next.maze.legal_actions(q)
            &&& next.cell(q).wf()
        } by {
            assert(self.cell(q).wf());
            assert(self.cells[q.0].len() == self.maze.cols);
            if q != p {
                assert(next.cell(q) == self.cell(q));
            }
        }
    }

    /// Learning from an episode with learning rate zero changes nothing.
    pub proof fn lemma_zero_rate_learns_nothing(self, steps: Seq<Step>, discount: int)
        requires
            self.wf(),
            forall|k: int| 0 <= k < steps.len() ==> self.maze.inside(at((#[trigger] steps[k]).0)),
        ensures
            self.after_episode(steps, discount, 0) == self,
    {
        assert forall|k: int| 0 <= k < steps.len() implies {
            &&& 0 <= at((#[trigger] steps[k]).0).0 < self.cells.len()
            &&& 0 <= at(steps[k].0).1 < self.cells[at(steps[k].0).0].len()
            &&& self.cells[at(steps[k].0).0][at(steps[k].0).1].wf()
        } by {
            let p = at(steps[k].0);
            assert(self.cell(p).wf());
            assert(self.cells[p.0].len() == self.maze.cols);
        }
        lemma_zero_rate_teaches_nothing(
            self.cells,
            steps,
            returns_of(rewards_of(steps), discount),
            steps.len() as int,
        );
    }

    /// Without discounting, the return of a step of an episode that ends at
    /// the goal is minus the number of steps that follow it.
    pub proof fn lemma_undiscounted_return_counts_steps(self, steps: Seq<Step>, k: int)
        requires
            self.wf(),
            self.is_walk(steps),
            self.arrival(steps) == self.finish,
            0 <= k < steps.len(),
        ensures
            return_from(rewards_of(steps), ONE as int, k) == -(steps.len() - 1 - k) * ONE,
        decreases steps.len() - k,
    {
        let rewards = rewards_of(steps);
        lemma_undiscounted_return(rewards, k);
        assert(rewards[k] == steps[k].2);
        if k == steps.len() - 1 {
            assert(steps[k] == steps.last());
        } else {
            assert(at(steps[k + 1].0) == crate::walk::landing(steps[k]));
            self.lemma_undiscounted_return_counts_steps(steps, k + 1);
        }
    }

    /// The steps of a walk stand on the grid and earn rewards.
    pub proof fn lemma_walk_can_be_learned(self, steps: Seq<Step>)
        requires
            self.wf(),
            self.is_walk(steps),
        ensures
            forall|k: int|
                0 <= k < steps.len() ==> self.maze.inside(at((#[trigger] steps[k]).0)) && is_reward(
                    steps[k].2,
                ),
            all_rewards(rewards_of(steps)),
    {
    }
}

} // verus!
