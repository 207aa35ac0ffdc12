//! The four cardinal moves.

use vstd::prelude::*;

verus! {

/// A move to a neighbouring cell. The canonical order is `Up`, `Right`,
/// `Down`, `Left`; it decides ties between equally valued moves.
#[derive(Clone, Copy, Debug, Eq)]
pub enum Action {
    Up,
    Right,
    Down,
    Left,
}

impl PartialEq for Action {
    fn eq(&self, other: &Self) -> (r: bool) {
        match (*self, *other) {
            (Action::Up, Action::Up) => true,
            (Action::Right, Action::Right) => true,
            (Action::Down, Action::Down) => true,
            (Action::Left, Action::Left) => true,
            _ => false,
        }
    }
}

impl vstd::std_specs::cmp::PartialEqSpecImpl for Action {
    open spec fn obeys_eq_spec() -> bool {
        true
    }

    open spec fn eq_spec(&self, other: &Self) -> bool {
        *self == *other
    }
}

impl Action {
    /// The position of this move in the canonical order.
    pub open spec fn rank(self) -> int {
        match self {
            Action::Up => 0,
            Action::Right => 1,
            Action::Down => 2,
            Action::Left => 3,
        }
    }

    /// The cell reached from `pos` (row, column) by this move.
    pub open spec fn target(self, pos: (int, int)) -> (int, int) {
        match self {
            Action::Up => (pos.0 - 1, pos.1),
            Action::Right => (pos.0, pos.1 + 1),
            Action::Down => (pos.0 + 1, pos.1),
            Action::Left => (pos.0, pos.1 - 1),
        }
    }

    /// The move that undoes this one.
    pub open spec fn opposite(self) -> Action {
        match self {
            Action::Up => Action::Down,
            Action::Right => Action::Left,
            Action::Down => Action::Up,
            Action::Left => Action::Right,
        }
    }

    /// The one-character symbol of this move.
    pub open spec fn symbol(self) -> Seq<char> {
        match self {
            Action::Up => "\u{2191}"@,
            Action::Right => "\u{2192}"@,
            Action::Down => "\u{2193}"@,
            Action::Left => "\u{2190}"@,
        }
    }
}

/// The mathematical position of a cell given by machine indices.
pub open spec fn at(p: (usize, usize)) -> (int, int) {
    (p.0 as int, p.1 as int)
}

/// Going there and back again ends where it began.
pub proof fn lemma_opposite_returns(a: Action, pos: (int, int))
    ensures
        a.opposite().target(a.target(pos)) == pos,
        a.opposite().opposite() == a,
{
}

} // verus!
