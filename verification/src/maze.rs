//! The mathematical model of a maze: its size, its impassable cells, and the
//! moves that are legal in each cell.

use vstd::prelude::*;
use crate::action::Action;

verus! {

/// The fixed topology of a maze. Positions are zero-based (row, column)
/// pairs.
pub struct Maze {
    pub rows: int,
    pub cols: int,
    pub blocked: Set<(int, int)>,
}

/// The sequence holding `a` if `keep` holds, and nothing otherwise.
pub open spec fn only_if(keep: bool, a: Action) -> Seq<Action> {
    if keep {
        seq![a]
    } else {
        Seq::empty()
    }
}

impl Maze {
    /// The position lies on the grid.
    pub open spec fn inside(self, p: (int, int)) -> bool {
        0 <= p.0 < self.rows && 0 <= p.1 < self.cols
    }

    /// The position lies on the grid and can be entered.
    pub open spec fn passable(self, p: (int, int)) -> bool {
        self.inside(p) && !self.blocked.contains(p)
    }

    /// Move `a` may be made from `p`: both ends can be entered.
    pub open spec fn legal(self, p: (int, int), a: Action) -> bool {
        self.passable(p) && self.passable(a.target(p))
    }

    /// The legal moves of cell `p`, in canonical order. An impassable cell
    /// has none.
    pub open spec fn legal_actions(self, p: (int, int)) -> Seq<Action> {
        only_if(self.legal(p, Action::Up), Action::Up)
            + only_if(self.legal(p, Action::Right), Action::Right)
            + only_if(self.legal(p, Action::Down), Action::Down)
            + only_if(self.legal(p, Action::Left), Action::Left)
    }

    /// A cell away from the border, passable itself and with four passable
    /// neighbours.
    pub open spec fn interior(self, p: (int, int)) -> bool {
        &&& 0 < p.0 < self.rows - 1
        &&& 0 < p.1 < self.cols - 1
        &&& !self.blocked.contains(p)
        &&& !self.blocked.contains(Action::Up.target(p))
        &&& !self.blocked.contains(Action::Right.target(p))
        &&& !self.blocked.contains(Action::Down.target(p))
        &&& !self.blocked.contains(Action::Left.target(p))
    }

    /// The legal moves of a cell are exactly the moves that are legal there.
    pub proof fn lemma_legal_actions_contains(self, p: (int, int), a: Action)
        ensures
            self.legal_actions(p).contains(a) <==> self.legal(p, a),
    {
        let s = self.legal_actions(p);
        if self.legal(p, a) {
            let before = (if self.legal(p, Action::Up) && a.rank() > 0 { 1int } else { 0 })
                + (if self.legal(p, Action::Right) && a.rank() > 1 { 1int } else { 0 })
                + (if self.legal(p, Action::Down) && a.rank() > 2 { 1int } else { 0 });
            assert(s[before] == a);
        }
        if s.contains(a) {
            let i = choose|i: int| 0 <= i < s.len() && s[i] == a;
            assert(s[i] == a);
        }
    }

    /// No move occurs twice among the legal moves of a cell, and they stand
    /// in canonical order.
    pub proof fn lemma_legal_actions_ordered(self, p: (int, int), i: int, j: int)
        requires
            0 <= i < j < self.legal_actions(p).len(),
        ensures
            self.legal_actions(p)[i].rank() < self.legal_actions(p)[j].rank(),
    {
    }

    /// An impassable cell has no legal move.
    pub proof fn lemma_blocked_has_no_actions(self, p: (int, int))
        requires
            !self.passable(p),
        ensures
            self.legal_actions(p).len() == 0,
    {
    }

    /// An interior cell has all four moves.
    pub proof fn lemma_interior_has_all_actions(self, p: (int, int))
        requires
            self.interior(p),
        ensures
            self.legal_actions(p) == seq![Action::Up, Action::Right, Action::Down, Action::Left],
            self.legal_actions(p).len() == 4,
    {
        assert(self.legal_actions(p) =~= seq![
            Action::Up,
            Action::Right,
            Action::Down,
            Action::Left,
        ]);
    }

    /// A cell has at most four legal moves.
    pub proof fn lemma_at_most_four(self, p: (int, int))
        ensures
            self.legal_actions(p).len() <= 4,
    {
    }

    /// Whoever arrives in a cell by a legal move can leave it again: the
    /// way back is legal there.
    pub proof fn lemma_arrival_can_leave(self, p: (int, int), a: Action)
        requires
            self.legal(p, a),
        ensures
            self.legal(a.target(p), a.opposite()),
            self.legal_actions(a.target(p)).len() > 0,
    {
        crate::action::lemma_opposite_returns(a, p);
        self.lemma_legal_actions_contains(a.target(p), a.opposite());
    }
}

} // verus!
