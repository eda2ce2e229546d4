//! Distance from a cell to the nearest Solid cell or grid edge, measured in
//! Manhattan rings, and the safety classifications built on it.

use vstd::prelude::*;

verus! {

use crate::grid::{CellState, GridCell, OccupancyGrid};
use crate::params::DIST_SCAN_MAX;

/// Manhattan distance between integer cell coordinates.
pub open spec fn manhattan(cx: int, cy: int, x: int, y: int) -> int {
    (if x >= cx {
        x - cx
    } else {
        cx - x
    }) + (if y >= cy {
        y - cy
    } else {
        cy - y
    })
}

/// Whether some cell at Manhattan distance exactly `r` from (cx, cy) is
/// blocked (Solid or out of bounds).
pub open spec fn ring_blocked(g: OccupancyGrid, cx: int, cy: int, r: int) -> bool {
    exists|x: int, y: int| manhattan(cx, cy, x, y) == r && g.blocked(x, y)
}

/// The least radius in [r, scan_max] whose ring holds a blocked cell, or
/// scan_max + 1 when none does.
pub open spec fn dist_from(g: OccupancyGrid, cx: int, cy: int, r: int, scan_max: int) -> int
    decreases scan_max + 1 - r,
{
    if r > scan_max {
        scan_max + 1
    } else if ring_blocked(g, cx, cy, r) {
        r
    } else {
        dist_from(g, cx, cy, r + 1, scan_max)
    }
}

/// Distance from (cx, cy) to the nearest blocked cell: 0 when the cell is
/// itself blocked, otherwise the least blocked ring radius, capped at
/// scan_max + 1.
pub open spec fn dist_to_blocked(g: OccupancyGrid, cx: int, cy: int, scan_max: int) -> int {
    if g.blocked(cx, cy) {
        0
    } else {
        dist_from(g, cx, cy, 1, scan_max)
    }
}

/// A cell is safe when its distance to the nearest Solid cell or edge, as
/// the bounded scan reports it, is at least `safe_min`.
pub open spec fn safe_cell(g: OccupancyGrid, cx: int, cy: int, safe_min: int) -> bool {
    dist_to_blocked(g, cx, cy, DIST_SCAN_MAX as int) >= safe_min
}

/// A cell lies in the wall band when its distance to the nearest Solid cell
/// or edge falls within [safe_min, band_max].
pub open spec fn band_cell(
    g: OccupancyGrid,
    cx: int,
    cy: int,
    safe_min: int,
    band_max: int,
) -> bool {
    let d = dist_to_blocked(g, cx, cy, DIST_SCAN_MAX as int);
    safe_min <= d <= band_max
}

/// Whether (x, y) holds an Unknown cell of the grid.
pub open spec fn unknown_at(g: OccupancyGrid, x: int, y: int) -> bool {
    g.in_bounds(x, y) && g.cell_state(x, y) == CellState::Unknown
}

/// Whether any 4-neighbor of (x, y) is an Unknown cell of the grid.
pub open spec fn unknown_neighbor(g: OccupancyGrid, x: int, y: int) -> bool {
    ||| unknown_at(g, x + 1, y)
    ||| unknown_at(g, x - 1, y)
    ||| unknown_at(g, x, y + 1)
    ||| unknown_at(g, x, y - 1)
}

/// A frontier cell: Free with at least one 4-adjacent Unknown neighbor.
pub open spec fn frontier_cell(g: OccupancyGrid, x: int, y: int) -> bool {
    g.free_at(x, y) && unknown_neighbor(g, x, y)
}

/// Reads the cell at wide signed coordinates, or None outside the grid.
pub fn cell_state_at(grid: &OccupancyGrid, x: i64, y: i64) -> (r: Option<CellState>)
    requires
        grid.wf(),
    ensures
        r == (if grid.in_bounds(x as int, y as int) {
            Some(grid.cell_state(x as int, y as int))
        } else {
            None::<CellState>
        }),
{
    if x >= 0 && y >= 0 && x < grid.width as i64 && y < grid.height as i64 {
        let i = grid.index(x as usize, y as usize);
        Some(grid.cells[i])
    } else {
        None
    }
}

/// Whether the cell at wide signed coordinates is Solid or out of bounds.
fn blocked_at(grid: &OccupancyGrid, x: i64, y: i64) -> (r: bool)
    requires
        grid.wf(),
    ensures
        r == grid.blocked(x as int, y as int),
{
    match cell_state_at(grid, x, y) {
        Option::Some(s) => s == CellState::Solid,
        Option::None => true,
    }
}

/// Scans outward from `cell` in Manhattan rings of growing radius and
/// returns the radius of the first ring holding a Solid or out-of-bounds
/// cell; 0 when `cell` itself is Solid or out of bounds; scan_max + 1 when
/// every ring up to scan_max is clear.
pub fn distance_to_solid_or_edge(grid: &OccupancyGrid, cell: GridCell, scan_max: i32) -> (d: i32)
    requires
        grid.wf(),
        0 <= scan_max < i32::MAX,
    ensures
        d == dist_to_blocked(*grid, cell.x as int, cell.y as int, scan_max as int),
{
    let cx = cell.x as i64;
    let cy = cell.y as i64;
    if blocked_at(grid, cx, cy) {
        return 0;
    }
    let mut r: i32 = 1;
    while r <= scan_max
        invariant
            grid.wf(),
            1 <= r <= scan_max + 1,
            scan_max < i32::MAX,
            cx == cell.x as int,
            cy == cell.y as int,
            !grid.blocked(cx as int, cy as int),
            dist_from(*grid, cx as int, cy as int, 1, scan_max as int) == dist_from(
                *grid,
                cx as int,
                cy as int,
                r as int,
                scan_max as int,
            ),
        decreases scan_max + 1 - r,
    {
        let mut dy: i32 = -r;
        while dy <= r
            invariant
                grid.wf(),
                1 <= r <= scan_max,
                scan_max < i32::MAX,
                -r <= dy <= r + 1,
                cx == cell.x as int,
                cy == cell.y as int,
                !grid.blocked(cx as int, cy as int),
                dist_from(*grid, cx as int, cy as int, 1, scan_max as int) == dist_from(
                    *grid,
                    cx as int,
                    cy as int,
                    r as int,
                    scan_max as int,
                ),
                forall|x: int, y: int|
                    manhattan(cx as int, cy as int, x, y) == r && y < cy + dy ==> !grid.blocked(
                        x,
                        y,
                    ),
            decreases r + 1 - dy,
        {
            let ady: i32 = if dy >= 0 {
                dy
            } else {
                -dy
            };
            let dx: i32 = r - ady;
            let x_hi = cx + dx as i64;
            let x_lo = cx - dx as i64;
            let y = cy + dy as i64;
            if blocked_at(grid, x_hi, y) {
                proof {
                    assert(manhattan(cx as int, cy as int, x_hi as int, y as int) == r);
                    lemma_ring_hit(*grid, cx as int, cy as int, r as int, scan_max as int);
                }
                return r;
            }
            if blocked_at(grid, x_lo, y) {
                proof {
                    assert(manhattan(cx as int, cy as int, x_lo as int, y as int) == r);
                    lemma_ring_hit(*grid, cx as int, cy as int, r as int, scan_max as int);
                }
                return r;
            }
            proof {
                assert forall|x: int, y2: int|
                    manhattan(cx as int, cy as int, x, y2) == r && y2 < cy + dy
                        + 1 implies !grid.blocked(x, y2) by {
                    if y2 == cy + dy {
                        assert(x == x_hi as int || x == x_lo as int);
                    }
                }
            }
            dy = dy + 1;
        }
        proof {
            assert forall|x: int, y: int|
                manhattan(cx as int, cy as int, x, y) == r implies !grid.blocked(x, y) by {
                assert(y < cy + (r + 1));
            }
            assert(!ring_blocked(*grid, cx as int, cy as int, r as int));
        }
        r = r + 1;
    }
    scan_max + 1
}

/// When a ring at radius r holds a blocked cell and every smaller ring was
/// clear, the scan's distance is exactly r.
proof fn lemma_ring_hit(g: OccupancyGrid, cx: int, cy: int, r: int, scan_max: int)
    requires
        1 <= r <= scan_max,
        ring_blocked(g, cx, cy, r),
        dist_from(g, cx, cy, 1, scan_max) == dist_from(g, cx, cy, r, scan_max),
    ensures
        dist_from(g, cx, cy, 1, scan_max) == r,
{
}

/// The bounded distance scan reports a value between r and scan_max + 1.
pub proof fn lemma_dist_from_range(g: OccupancyGrid, cx: int, cy: int, r: int, scan_max: int)
    requires
        1 <= r <= scan_max + 1,
    ensures
        r <= dist_from(g, cx, cy, r, scan_max) <= scan_max + 1,
    decreases scan_max + 1 - r,
{
    if r <= scan_max && !ring_blocked(g, cx, cy, r) {
        lemma_dist_from_range(g, cx, cy, r + 1, scan_max);
    }
}

/// The distance scan reports 0 exactly when the cell is Solid or out of
/// bounds.
pub proof fn lemma_distance_zero_iff_blocked(g: OccupancyGrid, cx: int, cy: int, scan_max: int)
    requires
        scan_max >= 0,
    ensures
        dist_to_blocked(g, cx, cy, scan_max) == 0 <==> g.blocked(cx, cy),
{
    if !g.blocked(cx, cy) {
        lemma_dist_from_range(g, cx, cy, 1, scan_max);
    }
}

/// When no Solid or out-of-bounds cell lies within Manhattan radius r of a
/// cell, the distance scan reports a value greater than r.
pub proof fn lemma_distance_exceeds_clear_radius(
    g: OccupancyGrid,
    cx: int,
    cy: int,
    r: int,
    scan_max: int,
)
    requires
        0 <= r <= scan_max,
        forall|x: int, y: int| manhattan(cx, cy, x, y) <= r ==> !g.blocked(x, y),
    ensures
        dist_to_blocked(g, cx, cy, scan_max) > r,
{
    assert(manhattan(cx, cy, cx, cy) == 0);
    assert(!g.blocked(cx, cy));
    lemma_clear_rings_skipped(g, cx, cy, 1, r, scan_max);
    lemma_dist_from_range(g, cx, cy, r + 1, scan_max);
}

/// Clear rings in [k, r] do not change where the scan starting at k lands.
proof fn lemma_clear_rings_skipped(g: OccupancyGrid, cx: int, cy: int, k: int, r: int, scan_max: int)
    requires
        1 <= k <= r + 1,
        r <= scan_max,
        forall|x: int, y: int| manhattan(cx, cy, x, y) <= r ==> !g.blocked(x, y),
    ensures
        dist_from(g, cx, cy, k, scan_max) == dist_from(g, cx, cy, r + 1, scan_max),
    decreases r + 1 - k,
{
    if k <= r {
        assert(!ring_blocked(g, cx, cy, k)) by {
            assert forall|x: int, y: int|
                manhattan(cx, cy, x, y) == k implies !g.blocked(x, y) by {}
        }
        lemma_clear_rings_skipped(g, cx, cy, k + 1, r, scan_max);
    }
}

/// Whether `cell` is safe: its scanned distance to the nearest Solid cell
/// or edge is at least `safe_min`.
pub fn is_safe_cell(grid: &OccupancyGrid, cell: GridCell, safe_min: i32) -> (r: bool)
    requires
        grid.wf(),
    ensures
        r == safe_cell(*grid, cell.x as int, cell.y as int, safe_min as int),
{
    let d = distance_to_solid_or_edge(grid, cell, DIST_SCAN_MAX);
    d >= safe_min
}

/// Whether `cell` lies in the wall band [safe_min, band_max].
pub fn is_wall_band_cell(grid: &OccupancyGrid, cell: GridCell, safe_min: i32, band_max: i32) -> (r:
    bool)
    requires
        grid.wf(),
    ensures
        r == band_cell(*grid, cell.x as int, cell.y as int, safe_min as int, band_max as int),
{
    let d = distance_to_solid_or_edge(grid, cell, DIST_SCAN_MAX);
    d >= safe_min && d <= band_max
}

/// Whether any 4-neighbor of `cell` is an Unknown cell of the grid.
pub fn has_unknown_neighbor(grid: &OccupancyGrid, cell: GridCell) -> (r: bool)
    requires
        grid.wf(),
    ensures
        r == unknown_neighbor(*grid, cell.x as int, cell.y as int),
{
    let cx = cell.x as i64;
    let cy = cell.y as i64;
    let mut found = false;
    if let Option::Some(s) = cell_state_at(grid, cx + 1, cy) {
        if s == CellState::Unknown {
            found = true;
        }
    }
    if let Option::Some(s) = cell_state_at(grid, cx - 1, cy) {
        if s == CellState::Unknown {
            found = true;
        }
    }
    if let Option::Some(s) = cell_state_at(grid, cx, cy + 1) {
        if s == CellState::Unknown {
            found = true;
        }
    }
    if let Option::Some(s) = cell_state_at(grid, cx, cy - 1) {
        if s == CellState::Unknown {
            found = true;
        }
    }
    found
}

} // verus!
