//! The state of one cell: its legal moves, a value estimate for each, and
//! the epsilon-greedy rule that picks among them.

use vstd::prelude::*;
use vstd::std_specs::cmp::PartialEqSpec;
use crate::action::Action;
use crate::chance::{draw_below, thread_rng};
use crate::fixed::ONE;

verus! {

/// The index of the greatest element of `values`, and of the earliest one
/// where several are greatest. Zero for the empty sequence.
pub open spec fn first_max(values: Seq<i64>) -> int
    decreases values.len(),
{
    if values.len() <= 1 {
        0
    } else {
        let best = first_max(values.drop_last());
        if values.last() > values[best] {
            values.len() - 1
        } else {
            best
        }
    }
}

/// `i` is the index of a greatest element, and no earlier element is as
/// great.
pub open spec fn is_first_max(values: Seq<i64>, i: int) -> bool {
    &&& 0 <= i < values.len()
    &&& forall|j: int| 0 <= j < values.len() ==> values[j] <= values[i]
    &&& forall|j: int| 0 <= j < i ==> values[j] < values[i]
}

/// `first_max` finds the greatest element, and the earliest among equals.
pub proof fn lemma_first_max(values: Seq<i64>)
    requires
        values.len() > 0,
    ensures
        is_first_max(values, first_max(values)),
    decreases values.len(),
{
    if values.len() > 1 {
        let front = values.drop_last();
        lemma_first_max(front);
        assert(forall|j: int| 0 <= j < front.len() ==> front[j] == values[j]);
    }
}

/// Only one index is that of the first greatest element.
pub proof fn lemma_first_max_unique(values: Seq<i64>, i: int)
    requires
        is_first_max(values, i),
    ensures
        i == first_max(values),
{
    lemma_first_max(values);
}

/// The index of the first element of `list` that equals `target`, if there
/// is one.
pub open spec fn first_index_of<T>(list: Seq<T>, target: T) -> Option<int>
    decreases list.len(),
{
    if list.len() == 0 {
        None
    } else {
        match first_index_of(list.drop_last(), target) {
            Some(i) => Some(i),
            None => if list.last() == target {
                Some(list.len() - 1)
            } else {
                None
            },
        }
    }
}

/// What `first_index_of` finds is the earliest occurrence, and it finds one
/// whenever there is one.
pub proof fn lemma_first_index_of<T>(list: Seq<T>, target: T)
    ensures
        match first_index_of(list, target) {
            Some(i) => {
                &&& 0 <= i < list.len()
                &&& list[i] == target
                &&& forall|j: int| 0 <= j < i ==> list[j] != target
            },
            None => forall|j: int| 0 <= j < list.len() ==> list[j] != target,
        },
    decreases list.len(),
{
    if list.len() > 0 {
        let front = list.drop_last();
        lemma_first_index_of(front, target);
        assert(forall|j: int| 0 <= j < front.len() ==> front[j] == list[j]);
    }
}

/// The index of the greatest element of `x`; of the first one, where several
/// are greatest.
pub fn max_index(x: &Vec<i64>) -> (r: usize)
    requires
        x.len() > 0,
    ensures
        r == first_max(x@),
        is_first_max(x@, r as int),
{
    let mut max_val: i64 = x[0];
    let mut max_ind: usize = 0;
    let mut i: usize = 0;
    while i < x.len()
        invariant
            i <= x.len(),
            x.len() > 0,
            max_ind < x.len(),
            max_ind <= i,
            max_val == x[max_ind as int],
            max_ind == first_max(x@.take(i as int)),
        decreases x.len() - i,
    {
        proof {
            let next = x@.take(i + 1);
            assert(next.drop_last() =~= x@.take(i as int));
            assert(next.last() == x[i as int]);
            assert(next[max_ind as int] == x[max_ind as int]);
        }
        if x[i] > max_val {
            max_val = x[i];
            max_ind = i;
        }
        i += 1;
    }
    proof {
        assert(x@.take(i as int) =~= x@);
        lemma_first_max(x@);
    }
    max_ind
}

/// The index of the first element of `list` that equals `target`, or `None`
/// where no element does.
pub fn index_of<T: PartialEq>(list: &[T], target: &T) -> (r: Option<usize>)
    ensures
        T::obeys_eq_spec() ==> match r {
            Some(i) => {
                &&& i < list@.len()
                &&& list@[i as int].eq_spec(target)
                &&& forall|j: int| 0 <= j < i ==> !list@[j].eq_spec(target)
            },
            None => forall|j: int| 0 <= j < list@.len() ==> !list@[j].eq_spec(target),
        },
        r is Some ==> r.unwrap() < list@.len(),
{
    let mut i: usize = 0;
    while i < list.len()
        invariant
            i <= list@.len(),
            T::obeys_eq_spec() ==> forall|j: int| 0 <= j < i ==> !list@[j].eq_spec(target),
        decreases list@.len() - i,
    {
        if list[i] == *target {
            return Some(i);
        }
        i += 1;
    }
    None
}

/// The mathematical content of a [`State`].
pub struct StateView {
    pub actions: Seq<Action>,
    pub values: Seq<i64>,
}

impl StateView {
    /// Every move has its value estimate.
    pub open spec fn wf(self) -> bool {
        self.actions.len() == self.values.len()
    }

    /// The move with the greatest value estimate; the first in the list
    /// where several share it.
    pub open spec fn greedy(self) -> Action {
        self.actions[first_max(self.values)]
    }

    /// The move that the epsilon-greedy rule makes when the random roll is
    /// `roll` and the random index is `pick`: move number `pick` if the roll
    /// lies below `epsilon`, the greedy move otherwise.
    pub open spec fn chosen(self, epsilon: int, roll: int, pick: int) -> Action {
        if roll < epsilon {
            self.actions[pick]
        } else {
            self.greedy()
        }
    }

    /// The greedy move has the greatest value estimate of the cell, and
    /// where several moves share it, the greedy move is the one that stands
    /// first in the list.
    pub proof fn lemma_greedy_is_first_best(self)
        requires
            self.wf(),
            self.actions.len() > 0,
        ensures
            is_first_max(self.values, first_max(self.values)),
            self.greedy() == self.actions[first_max(self.values)],
            self.actions.contains(self.greedy()),
    {
        lemma_first_max(self.values);
    }
}

/// The legal moves of a cell and, index by index, their value estimates.
#[derive(Debug)]
pub struct State {
    pub actions: Vec<Action>,
    pub action_values: Vec<i64>,
}

impl Clone for State {
    fn clone(&self) -> (s: Self)
        ensures
            s@ == self@,
    {
        let actions = self.actions.clone();
        let action_values = self.action_values.clone();
        proof {
            assert(actions@ =~= self.actions@);
            assert(action_values@ =~= self.action_values@);
        }
        State { actions, action_values }
    }
}

impl View for State {
    type V = StateView;

    open spec fn view(&self) -> StateView {
        StateView { actions: self.actions@, values: self.action_values@ }
    }
}

impl State {
    /// The greedy move of the cell.
    pub fn greedy(&self) -> (a: Action)
        requires
            self@.wf(),
            self@.actions.len() > 0,
        ensures
            a == self@.greedy(),
    {
        self.actions[max_index(&self.action_values)]
    }

    /// The epsilon-greedy rule for given random numbers: move number `pick`
    /// if `roll` lies below `epsilon`, the greedy move otherwise.
    pub fn select(&self, epsilon: i64, roll: i64, pick: usize) -> (a: Action)
        requires
            self@.wf(),
            pick < self@.actions.len(),
        ensures
            a == self@.chosen(epsilon as int, roll as int, pick as int),
    {
        if roll < epsilon {
            self.actions[pick]
        } else {
            self.greedy()
        }
    }

    /// The epsilon-greedy rule. With probability `epsilon / ONE` it explores
    /// and makes one of the legal moves, each equally likely; otherwise it
    /// makes the greedy move. The cell must have a legal move.
    pub fn policy(&self, epsilon: i64) -> (a: Action)
        requires
            self@.wf(),
            self@.actions.len() > 0,
        ensures
            exists|roll: int, pick: int|
                0 <= roll < ONE && 0 <= pick < self@.actions.len() && a == #[trigger] self@.chosen(
                    epsilon as int,
                    roll,
                    pick,
                ),
            self@.actions.contains(a),
            epsilon <= 0 ==> a == self@.greedy(),
    {
        let mut rng = thread_rng();
        let roll: i64 = draw_below(&mut rng, ONE as u64) as i64;
        let pick: usize = if roll < epsilon {
            draw_below(&mut rng, self.actions.len() as u64) as usize
        } else {
            0
        };
        proof {
            lemma_first_max(self@.values);
        }
        self.select(epsilon, roll, pick)
    }
}

} // verus!
