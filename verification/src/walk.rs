//! Walks through the maze: what a step is, which sequences of steps are
//! episodes, and the one episode that the greedy rule produces.

use vstd::prelude::*;
use crate::action::{at, Action};
use crate::fixed::STEP_PENALTY;
use crate::model::BoardView;

verus! {

/// One step of a walk: the cell it leaves, the move it makes, and the reward
/// it earns.
pub type Step = ((usize, usize), Action, i64);

/// One leg of a path: the cell a step leaves and the cell it enters.
pub type Leg = ((usize, usize), (usize, usize));

/// The cell that a step enters.
pub open spec fn landing(step: Step) -> (int, int) {
    step.1.target(at(step.0))
}

/// The machine indices of a position on the grid.
pub open spec fn indices(p: (int, int)) -> (usize, usize) {
    (p.0 as usize, p.1 as usize)
}

/// The leg that a step covers.
pub open spec fn leg_of(step: Step) -> Leg {
    (step.0, indices(landing(step)))
}

/// The legs that the steps of a walk cover, in order.
pub open spec fn legs(steps: Seq<Step>) -> Seq<Leg> {
    Seq::new(steps.len(), |k: int| leg_of(steps[k]))
}

impl BoardView {
    /// The reward for entering cell `p`: nothing at the goal, a penalty of
    /// one anywhere else.
    pub open spec fn reward_at(self, p: (int, int)) -> i64 {
        if p == self.finish {
            0
        } else {
            STEP_PENALTY
        }
    }

    /// Where a walk of these steps from the start cell stands at its end.
    pub open spec fn arrival(self, steps: Seq<Step>) -> (int, int) {
        if steps.len() == 0 {
            self.start
        } else {
            landing(steps.last())
        }
    }

    /// The steps form a walk from the start cell: each leaves the cell that
    /// the one before it entered, none leaves the goal, each makes a move
    /// that is legal where it stands, and each earns the reward of the cell
    /// it enters.
    pub open spec fn is_walk(self, steps: Seq<Step>) -> bool {
        forall|k: int|
            0 <= k < steps.len() ==> {
                &&& at((#[trigger] steps[k]).0) == (if k == 0 {
                    self.start
                } else {
                    landing(steps[k - 1])
                })
                &&& at(steps[k].0) != self.finish
                &&& self.maze.legal(at(steps[k].0), steps[k].1)
                &&& steps[k].2 == self.reward_at(landing(steps[k]))
            }
    }

    /// The steps form an episode under the step cap `limit`: a walk from the
    /// start cell that is no longer than the cap and that stops short of the
    /// cap only at the goal.
    pub open spec fn is_episode(self, steps: Seq<Step>, limit: int) -> bool {
        &&& self.is_walk(steps)
        &&& steps.len() <= limit
        &&& steps.len() < limit ==> self.arrival(steps) == self.finish
    }

    /// The step that the greedy rule makes from cell `p`.
    pub open spec fn greedy_step(self, p: (int, int)) -> Step {
        let a = self.cell(p).greedy();
        (indices(p), a, self.reward_at(a.target(p)))
    }

    /// The walk that the greedy rule makes from cell `p`: it ends at the
    /// goal, or after `n` steps.
    pub open spec fn greedy_walk(self, p: (int, int), n: nat) -> Seq<Step>
        decreases n,
    {
        if n == 0 || p == self.finish {
            Seq::empty()
        } else {
            seq![self.greedy_step(p)] + self.greedy_walk(
                self.cell(p).greedy().target(p),
                (n - 1) as nat,
            )
        }
    }

    /// A walk grows by a step that leaves the cell where the walk stands,
    /// makes a legal move there and earns the reward of the cell it enters.
    pub proof fn lemma_walk_extends(self, steps: Seq<Step>, step: Step)
        requires
            self.is_walk(steps),
            at(step.0) == self.arrival(steps),
            at(step.0) != self.finish,
            self.maze.legal(at(step.0), step.1),
            step.2 == self.reward_at(landing(step)),
        ensures
            self.is_walk(steps.push(step)),
            self.arrival(steps.push(step)) == landing(step),
    {
        let longer = steps.push(step);
        assert forall|k: int| 0 <= k < longer.len() implies {
            &&& at((#[trigger] longer[k]).0) == (if k == 0 {
                self.start
            } else {
                landing(longer[k - 1])
            })
            &&& at(longer[k].0) != self.finish
            &&& self.maze.legal(at(longer[k].0), longer[k].1)
            &&& longer[k].2 == self.reward_at(landing(longer[k]))
        } by {
            if k < steps.len() {
                assert(longer[k] == steps[k]);
                if k > 0 {
                    assert(longer[k - 1] == steps[k - 1]);
                }
            }
        }
    }

    /// A greedy walk that has steps left and does not stand on the goal
    /// makes the greedy step and goes on from the cell which that enters.
    pub proof fn lemma_greedy_walk_grows(self, done: Seq<Step>, p: (int, int), n: nat)
        requires
            n > 0,
            p != self.finish,
        ensures
            done + self.greedy_walk(p, n) == done.push(self.greedy_step(p)) + self.greedy_walk(
                self.cell(p).greedy().target(p),
                (n - 1) as nat,
            ),
    {
        let step = self.greedy_step(p);
        let rest = self.greedy_walk(self.cell(p).greedy().target(p), (n - 1) as nat);
        assert(done + (seq![step] + rest) =~= done.push(step) + rest);
    }

    /// A greedy walk that stands on the goal, or has no steps left, is
    /// over.
    pub proof fn lemma_greedy_walk_ends(self, done: Seq<Step>, p: (int, int), n: nat)
        requires
            n == 0 || p == self.finish,
        ensures
            done + self.greedy_walk(p, n) == done,
    {
        assert(done + Seq::<Step>::empty() =~= done);
    }

    /// Every leg of a walk begins where the leg before it ended, and the
    /// first begins at the start cell.
    pub proof fn lemma_legs_chain(self, steps: Seq<Step>, k: int)
        requires
            self.wf(),
            self.is_walk(steps),
            0 <= k < steps.len(),
        ensures
            legs(steps)[k].0 == (if k == 0 {
                indices(self.start)
            } else {
                legs(steps)[k - 1].1
            }),
            self.maze.passable(at(legs(steps)[k].1)),
            at(legs(steps)[k].1) == landing(steps[k]),
    {
        assert(self.maze.legal(at(steps[k].0), steps[k].1));
        if k > 0 {
            assert(self.maze.legal(at(steps[k - 1].0), steps[k - 1].1));
        }
    }
}

} // verus!
