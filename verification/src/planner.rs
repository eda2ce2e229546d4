//! Frontier planner: picks the next exploration goal by the
//! nearest-frontier policy and plans a safety-weighted path to it.
//!
//! During WallSweep the goal search is confined to frontier cells in the
//! wall band; when that search comes up empty the phase flips to Fill, one
//! way per attempt, and the search retries without the band constraint.
//! An optional reduction compresses a path to its direction-change
//! waypoints.

use vstd::prelude::*;

verus! {

use crate::frontier::{find_nearest_frontier, qualifies, reachable_free, FrontierPolicy};
use crate::grid::{GridCell, OccupancyGrid};
use crate::mode::{AutoNavMode, Phase};
use crate::params::{SAFE_MARGIN_MIN, WALL_BAND_MAX};
use crate::pathfind::{find_path, valid_path, PathPolicy};

/// An active route: the ordered cells still to visit, and the goal cell
/// the route was planned for.
pub struct PathPlan {
    pub cells: Vec<GridCell>,
    pub target: GridCell,
}

/// The banded goal filter used during WallSweep.
pub open spec fn sweep_policy() -> FrontierPolicy {
    FrontierPolicy { safe_min: SAFE_MARGIN_MIN, band_max: WALL_BAND_MAX, banded: true }
}

/// The unbanded goal filter used during Fill.
pub open spec fn fill_policy() -> FrontierPolicy {
    FrontierPolicy { safe_min: SAFE_MARGIN_MIN, band_max: WALL_BAND_MAX, banded: false }
}

/// The path-search policy: unsafe cells excluded, and the wall band
/// preferred while sweeping.
pub open spec fn route_policy(prefer_band: bool) -> PathPolicy {
    PathPolicy {
        avoid_unsafe: true,
        prefer_band,
        safe_min: SAFE_MARGIN_MIN,
        band_max: WALL_BAND_MAX,
    }
}

/// Some safe frontier cell in the wall band is reachable from `start`
/// over Free cells.
pub open spec fn banded_goal_exists(g: OccupancyGrid, start: GridCell) -> bool {
    exists|c: GridCell|
        reachable_free(g, start, c) && qualifies(g, sweep_policy(), #[trigger] c.x as int, c.y as int)
}

/// Some safe frontier cell is reachable from `start` over Free cells.
pub open spec fn goal_exists(g: OccupancyGrid, start: GridCell) -> bool {
    exists|c: GridCell|
        reachable_free(g, start, c) && qualifies(g, fill_policy(), #[trigger] c.x as int, c.y as int)
}

/// Plans a route to the next exploration goal, by the nearest-frontier
/// policy.  Returns a plan whose route runs from `start` to a safe,
/// reachable frontier cell, or None when no goal is found or no safe
/// route reaches the chosen goal; either outcome is retried on a later
/// tick.  A WallSweep search that finds no banded goal flips the phase to
/// Fill before retrying unbanded.
pub fn plan_frontier_path(grid: &OccupancyGrid, mode: &mut AutoNavMode, start: GridCell) -> (r:
    Option<PathPlan>)
    requires
        grid.wf(),
    ensures
        !old(mode).enabled ==> r is None && *final(mode) == *old(mode),
        final(mode).enabled == old(mode).enabled,
        old(mode).enabled ==> final(mode).phase == (if old(mode).phase == Phase::WallSweep
            && banded_goal_exists(*grid, start) {
            Phase::WallSweep
        } else {
            Phase::Fill
        }),
        r matches Some(plan) ==> {
            &&& valid_path(
                *grid,
                route_policy(final(mode).phase == Phase::WallSweep),
                plan.cells@,
                start,
                plan.target,
            )
            &&& reachable_free(*grid, start, plan.target)
            &&& qualifies(
                *grid,
                (if final(mode).phase == Phase::WallSweep {
                    sweep_policy()
                } else {
                    fill_policy()
                }),
                plan.target.x as int,
                plan.target.y as int,
            )
        },
        old(mode).enabled && r is None ==> !goal_exists(*grid, start) || (exists|c: GridCell|
            reachable_free(*grid, start, c) && qualifies(
                *grid,
                fill_policy(),
                #[trigger] c.x as int,
                c.y as int,
            ) && !(exists|p: Seq<GridCell>| valid_path(*grid, route_policy(false), p, start, c))),
{
    if !mode.enabled {
        return None;
    }
    let target: Option<GridCell> = match mode.phase {
        Phase::WallSweep => {
            let banded = find_nearest_frontier(
                grid,
                start,
                FrontierPolicy { safe_min: SAFE_MARGIN_MIN, band_max: WALL_BAND_MAX, banded: true },
            );
            match banded {
                Option::Some(c) => Some(c),
                Option::None => {
                    mode.phase = Phase::Fill;
                    find_nearest_frontier(
                        grid,
                        start,
                        FrontierPolicy {
                            safe_min: SAFE_MARGIN_MIN,
                            band_max: WALL_BAND_MAX,
                            banded: false,
                        },
                    )
                },
            }
        },
        Phase::Fill => find_nearest_frontier(
            grid,
            start,
            FrontierPolicy { safe_min: SAFE_MARGIN_MIN, band_max: WALL_BAND_MAX, banded: false },
        ),
    };
    match target {
        Option::Some(goal) => {
            let prefer_band = mode.phase == Phase::WallSweep;
            let path = find_path(
                grid,
                start,
                goal,
                PathPolicy {
                    avoid_unsafe: true,
                    prefer_band,
                    safe_min: SAFE_MARGIN_MIN,
                    band_max: WALL_BAND_MAX,
                },
            );
            match path {
                Option::Some(cells) => Some(PathPlan { cells, target: goal }),
                Option::None => {
                    proof {
                        let gr = *grid;
                        if qualifies(gr, sweep_policy(), goal.x as int, goal.y as int) {
                            assert(qualifies(gr, fill_policy(), goal.x as int, goal.y as int));
                        }
                        assert forall|p: Seq<GridCell>|
                            !valid_path(gr, route_policy(false), p, start, goal) by {
                            if valid_path(gr, route_policy(false), p, start, goal) {
                                assert(valid_path(
                                    gr,
                                    route_policy(prefer_band),
                                    p,
                                    start,
                                    goal,
                                ));
                            }
                        }
                    }
                    None
                },
            }
        },
        Option::None => None,
    }
}

/// Whether the step into p[j] and the step out of it head in different
/// directions: p[j] is a corner the reduced path must keep.
pub open spec fn turn_at(p: Seq<GridCell>, j: int) -> bool {
    (p[j + 1].x - p[j].x, p[j + 1].y - p[j].y) != (p[j].x - p[j - 1].x, p[j].y - p[j - 1].y)
}

/// The interior corners of `p` with index below `j`, in order.
pub open spec fn corners_before(p: Seq<GridCell>, j: int) -> Seq<GridCell>
    decreases j,
{
    if j <= 1 {
        Seq::empty()
    } else {
        corners_before(p, j - 1) + (if turn_at(p, j - 1) {
            seq![p[j - 1]]
        } else {
            Seq::<GridCell>::empty()
        })
    }
}

/// A path reduced to its direction-change waypoints: the first cell, the
/// interior corners, and the last cell.  Short paths are kept whole.
pub open spec fn waypoints_of(p: Seq<GridCell>) -> Seq<GridCell> {
    if p.len() <= 2 {
        p
    } else {
        seq![p[0]] + corners_before(p, p.len() - 1) + seq![p[p.len() - 1]]
    }
}

/// Reduces a cell path to the waypoints where its direction changes,
/// keeping both endpoints.
pub fn reduce_to_waypoints(path: &Vec<GridCell>) -> (r: Vec<GridCell>)
    ensures
        r@ == waypoints_of(path@),
{
    let n = path.len();
    if n <= 2 {
        let mut r: Vec<GridCell> = Vec::new();
        let mut i: usize = 0;
        while i < n
            invariant
                i <= n,
                n == path@.len(),
                r@ == path@.subrange(0, i as int),
            decreases n - i,
        {
            r.push(path[i]);
            proof {
                assert(r@ =~= path@.subrange(0, i + 1));
            }
            i = i + 1;
        }
        proof {
            assert(r@ =~= path@);
        }
        return r;
    }
    let mut r: Vec<GridCell> = Vec::new();
    r.push(path[0]);
    let mut prev_dx: i64 = path[1].x as i64 - path[0].x as i64;
    let mut prev_dy: i64 = path[1].y as i64 - path[0].y as i64;
    let mut i: usize = 2;
    while i < n
        invariant
            2 <= i <= n,
            n == path@.len(),
            n > 2,
            prev_dx == path@[i - 1].x - path@[i - 2].x,
            prev_dy == path@[i - 1].y - path@[i - 2].y,
            r@ == seq![path@[0]] + corners_before(path@, i - 1),
        decreases n - i,
    {
        let dx = path[i].x as i64 - path[i - 1].x as i64;
        let dy = path[i].y as i64 - path[i - 1].y as i64;
        if dx != prev_dx || dy != prev_dy {
            r.push(path[i - 1]);
            prev_dx = dx;
            prev_dy = dy;
            proof {
                assert(turn_at(path@, i - 1));
                assert(r@ =~= seq![path@[0]] + corners_before(path@, i as int));
            }
        } else {
            proof {
                assert(!turn_at(path@, i - 1));
                assert(r@ =~= seq![path@[0]] + corners_before(path@, i as int));
            }
        }
        i = i + 1;
    }
    r.push(path[n - 1]);
    proof {
        assert(r@ =~= seq![path@[0]] + corners_before(path@, n - 1) + seq![path@[n - 1]]);
    }
    r
}

} // verus!
