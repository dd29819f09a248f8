//! The drawing rule for one grid cell.
//!
//! The renderer draws a cube for every wall cell, marks the start and goal
//! logical cells in their own colours even though they are passable, and
//! draws nothing for any other passable cell.  The decision is pure; the
//! host turns it into draw calls.

use vstd::prelude::*;

use crate::grid::Grid;
use crate::grid::in_logical_bounds;

verus! {

/// What the renderer must draw at one grid cell.
#[derive(Clone, Copy, Debug, PartialEq, Eq, Structural)]
pub enum CellDraw {
    Wall,
    Start,
    Goal,
    Nothing,
}

/// The drawing rule: a wall is always a wall cube; a passable cell is
/// marked when it is the start or the goal, and otherwise draws nothing.
pub open spec fn draw_spec(passable: bool, at_start: bool, at_goal: bool) -> CellDraw {
    if !passable {
        CellDraw::Wall
    } else if at_start {
        CellDraw::Start
    } else if at_goal {
        CellDraw::Goal
    } else {
        CellDraw::Nothing
    }
}

/// Classify the grid cell `(r, c)` for drawing, given the two
/// distinguished logical cells `start` and `goal`.
pub fn classify_cell(
    grid: &Grid,
    r: usize,
    c: usize,
    start: (usize, usize),
    goal: (usize, usize),
) -> (d: CellDraw)
    requires
        grid.wf(),
        r < grid.side(),
        c < grid.side(),
        in_logical_bounds((start.0 as int, start.1 as int), grid.l()),
        in_logical_bounds((goal.0 as int, goal.1 as int), grid.l()),
    ensures
        d == draw_spec(
            grid@[r as int][c as int],
            r as int == 2 * (start.0 as int) + 1 && c as int == 2 * (start.1 as int) + 1,
            r as int == 2 * (goal.0 as int) + 1 && c as int == 2 * (goal.1 as int) + 1,
        ),
{
    if !grid.is_passable(r, c) {
        CellDraw::Wall
    } else if r == 2 * start.0 + 1 && c == 2 * start.1 + 1 {
        CellDraw::Start
    } else if r == 2 * goal.0 + 1 && c == 2 * goal.1 + 1 {
        CellDraw::Goal
    } else {
        CellDraw::Nothing
    }
}

} // verus!
