//! Completion detector: recognizes when no safe frontier cell remains
//! anywhere in the grid, and halts the agent when it does.

use vstd::prelude::*;

verus! {

use crate::cmd_vel::CmdVel;
use crate::distance::{frontier_cell, has_unknown_neighbor, is_safe_cell, safe_cell, cell_state_at};
use crate::grid::{CellState, GridCell, OccupancyGrid};
use crate::mode::AutoNavMode;
use crate::params::SAFE_MARGIN_MIN;
use crate::planner::PathPlan;

/// Exploration is complete when no cell of the grid is both a frontier
/// cell and safe: nothing explorable remains.
pub open spec fn exploration_complete(g: OccupancyGrid) -> bool {
    forall|x: int, y: int|
        !(#[trigger] frontier_cell(g, x, y) && safe_cell(g, x, y, SAFE_MARGIN_MIN as int))
}

/// Scans the whole grid for a safe frontier cell.  When none remains,
/// clears any active plan, zeroes the commanded velocity on the same
/// tick, and reports completion; otherwise leaves plan and command alone.
/// Disabled navigation leaves everything alone.
pub fn stop_when_done(
    grid: &OccupancyGrid,
    mode: &AutoNavMode,
    plan: &mut Option<PathPlan>,
    cmd: &mut CmdVel,
) -> (done: bool)
    requires
        grid.wf(),
    ensures
        !mode.enabled ==> !done && *final(plan) == *old(plan) && *final(cmd) == *old(cmd),
        mode.enabled ==> done == exploration_complete(*grid),
        mode.enabled && done ==> *final(plan) is None && final(cmd).is_zero(),
        mode.enabled && !done ==> *final(plan) == *old(plan) && *final(cmd) == *old(cmd),
{
    if !mode.enabled {
        return false;
    }
    let mut y: usize = 0;
    while y < grid.height
        invariant
            grid.wf(),
            y <= grid.height,
            forall|xi: int, yi: int|
                0 <= yi < y ==> !(#[trigger] frontier_cell(*grid, xi, yi) && safe_cell(
                    *grid,
                    xi,
                    yi,
                    SAFE_MARGIN_MIN as int,
                )),
        decreases grid.height - y,
    {
        let mut x: usize = 0;
        while x < grid.width
            invariant
                grid.wf(),
                y < grid.height,
                x <= grid.width,
                forall|xi: int, yi: int|
                    0 <= yi < y ==> !(#[trigger] frontier_cell(*grid, xi, yi) && safe_cell(
                        *grid,
                        xi,
                        yi,
                        SAFE_MARGIN_MIN as int,
                    )),
                forall|xi: int|
                    0 <= xi < x ==> !(#[trigger] frontier_cell(*grid, xi, y as int) && safe_cell(
                        *grid,
                        xi,
                        y as int,
                        SAFE_MARGIN_MIN as int,
                    )),
            decreases grid.width - x,
        {
            let cell = GridCell { x: x as i32, y: y as i32 };
            let free = match cell_state_at(grid, x as i64, y as i64) {
                Option::Some(s) => s == CellState::Free,
                Option::None => false,
            };
            if free && has_unknown_neighbor(grid, cell) && is_safe_cell(grid, cell, SAFE_MARGIN_MIN) {
                proof {
                    assert(frontier_cell(*grid, x as int, y as int));
                    assert(!exploration_complete(*grid));
                }
                return false;
            }
            x = x + 1;
        }
        proof {
            assert forall|xi: int, yi: int| 0 <= yi < y + 1 implies !(#[trigger] frontier_cell(
                *grid,
                xi,
                yi,
            ) && safe_cell(*grid, xi, yi, SAFE_MARGIN_MIN as int)) by {
                if yi == y && !(0 <= xi < grid.width) {
                    assert(!grid.free_at(xi, yi));
                }
            }
        }
        y = y + 1;
    }
    proof {
        assert forall|xi: int, yi: int| !(#[trigger] frontier_cell(*grid, xi, yi) && safe_cell(
            *grid,
            xi,
            yi,
            SAFE_MARGIN_MIN as int,
        )) by {
            if !(0 <= yi < grid.height) {
                assert(!grid.free_at(xi, yi));
            }
        }
    }
    *plan = None;
    cmd.stop();
    true
}

} // verus!
