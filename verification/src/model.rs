//! The mathematical model of a board: the maze, the start and goal cells, the
//! cursor, and the table of cell states.

use vstd::prelude::*;
use crate::action::Action;
use crate::maze::Maze;
use crate::state::StateView;

verus! {

/// The mathematical content of a [`Board`].
pub struct BoardView {
    pub maze: Maze,
    pub start: (int, int),
    pub finish: (int, int),
    pub current: (int, int),
    pub cells: Seq<Seq<StateView>>,
}

impl BoardView {
    /// The state of the cell at `p`.
    pub open spec fn cell(self, p: (int, int)) -> StateView {
        self.cells[p.0][p.1]
    }

    /// The maze fits the machine and the table has the maze's size; every
    /// cell holds exactly the legal moves of its position, each with a value
    /// estimate; start and goal are distinct passable cells; the cursor
    /// stands on a passable cell.
    pub open spec fn wf(self) -> bool {
        &&& self.maze.rows <= usize::MAX
        &&& self.maze.cols <= usize::MAX
        &&& self.cells.len() == self.maze.rows
        &&& forall|r: int| 0 <= r < self.maze.rows ==> (#[trigger] self.cells[r]).len() == self.maze.cols
        &&& forall|p: (int, int)|
            self.maze.inside(p) ==> {
                &&& (#[trigger] self.cell(p)).actions == self.maze.legal_actions(p)
                &&& self.cell(p).wf()
            }
        &&& self.maze.passable(self.start)
        &&& self.maze.passable(self.finish)
        &&& self.start != self.finish
        &&& self.maze.passable(self.current)
    }

    /// Every legal move of a cell has its value estimate: the two lists of a
    /// cell are equally long.
    pub proof fn lemma_every_move_has_an_estimate(self, p: (int, int))
        requires
            self.wf(),
            self.maze.inside(p),
        ensures
            self.cell(p).values.len() == self.cell(p).actions.len(),
            self.cell(p).actions.len() <= 4,
    {
        assert(self.cell(p).wf());
    }

    /// A blocked cell has no legal move and no value estimate.
    pub proof fn lemma_blocked_cell_has_no_moves(self, p: (int, int))
        requires
            self.wf(),
            self.maze.inside(p),
            self.maze.blocked.contains(p),
        ensures
            self.cell(p).actions.len() == 0,
            self.cell(p).values.len() == 0,
    {
        assert(self.cell(p).wf());
    }

    /// A passable cell away from the border whose four neighbours are
    /// passable has all four moves, in canonical order.
    pub proof fn lemma_interior_cell_has_four_moves(self, p: (int, int))
        requires
            self.wf(),
            self.maze.interior(p),
        ensures
            self.cell(p).actions == seq![Action::Up, Action::Right, Action::Down, Action::Left],
            self.cell(p).actions.len() == 4,
            self.cell(p).values.len() == 4,
    {
        assert(self.cell(p).wf());
        self.maze.lemma_interior_has_all_actions(p);
    }

    /// A board stays well formed when its cursor is put on another passable
    /// cell.
    pub proof fn lemma_wf_with_cursor(self, p: (int, int))
        requires
            self.wf(),
            self.maze.passable(p),
        ensures
            (BoardView { current: p, ..self }).wf(),
    {
        let moved = BoardView { current: p, ..self };
        assert forall|q: (int, int)| moved.maze.inside(q) implies {
            &&& (#[trigger] moved.cell(q)).actions == moved.maze.legal_actions(q)
            &&& moved.cell(q).wf()
        } by {
            assert(moved.cell(q) == self.cell(q));
        }
    }

    /// The start cell has a legal move.
    pub open spec fn start_is_open(self) -> bool {
        self.cell(self.start).actions.len() > 0
    }

    /// An episode of up to `limit` steps can begin: the cursor stands on the
    /// start cell, and if a step is to be made, the start cell has a legal
    /// move.
    pub open spec fn ready(self, limit: int) -> bool {
        &&& self.current == self.start
        &&& limit > 0 ==> self.start_is_open()
    }
}

/// The zero-based positions of the cells that a set of one-based positions
/// names.
pub open spec fn zero_based(blocked: Set<(usize, usize)>) -> Set<(int, int)> {
    Set::new(
        |p: (int, int)|
            0 <= p.0 < usize::MAX && 0 <= p.1 < usize::MAX && blocked.contains(
                ((p.0 + 1) as usize, (p.1 + 1) as usize),
            ),
    )
}

/// A layout from which a board can be built: start and goal, given as
/// one-based positions, lie on the grid, are two different cells, and
/// neither is blocked.
pub open spec fn layout_ok(
    rows: usize,
    columns: usize,
    start: (usize, usize),
    finish: (usize, usize),
    blocked: Set<(usize, usize)>,
) -> bool {
    &&& 1 <= start.0 <= rows
    &&& 1 <= start.1 <= columns
    &&& 1 <= finish.0 <= rows
    &&& 1 <= finish.1 <= columns
    &&& start != finish
    &&& !blocked.contains(start)
    &&& !blocked.contains(finish)
}

/// Every value estimate is zero.
pub open spec fn all_zero(values: Seq<i64>) -> bool {
    forall|i: int| 0 <= i < values.len() ==> values[i] == 0
}

} // verus!
