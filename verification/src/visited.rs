//! Coverage mask: which cells the agent has already visited, independent
//! of sensed occupancy, with the same dimensions as the occupancy grid but
//! its own lifecycle.

use vstd::prelude::*;

verus! {

use crate::grid::{lemma_flat_index_in_range, lemma_flat_index_injective, GridCell, MAX_GRID_DIM};

/// Boolean coverage mask over the grid's cells, row-major.
pub struct VisitedGrid {
    pub visited: Vec<bool>,
    pub width: usize,
    pub height: usize,
}

impl VisitedGrid {
    /// The mask matches its declared dimensions.
    pub open spec fn wf(self) -> bool {
        &&& self.visited.len() == self.width * self.height
        &&& 1 <= self.width <= MAX_GRID_DIM
        &&& 1 <= self.height <= MAX_GRID_DIM
    }

    /// Whether the in-bounds cell (x, y) is marked visited; cells outside
    /// the mask count as unvisited.
    pub open spec fn marked(self, x: int, y: int) -> bool {
        &&& 0 <= x < self.width
        &&& 0 <= y < self.height
        &&& self.visited[y * self.width + x]
    }

    /// Creates a mask of the given dimensions with no cell visited.
    pub fn new(width: usize, height: usize) -> (v: Self)
        requires
            1 <= width <= MAX_GRID_DIM,
            1 <= height <= MAX_GRID_DIM,
        ensures
            v.wf(),
            v.width == width,
            v.height == height,
            forall|x: int, y: int| !v.marked(x, y),
    {
        proof {
            crate::grid::lemma_dim_product_bounded(width as int, height as int);
        }
        let n = width * height;
        let mut visited: Vec<bool> = Vec::new();
        let mut i: usize = 0;
        while i < n
            invariant
                i <= n,
                visited.len() == i,
                forall|k: int| 0 <= k < i ==> !visited[k],
            decreases n - i,
        {
            visited.push(false);
            i = i + 1;
        }
        let v = Self { visited, width, height };
        proof {
            assert forall|x: int, y: int| !v.marked(x, y) by {
                if 0 <= x < width && 0 <= y < height {
                    lemma_flat_index_in_range(x, y, width as int, height as int);
                }
            }
        }
        v
    }

    /// Marks `cell` visited; marks outside the mask are dropped.
    pub fn mark(&mut self, cell: GridCell)
        requires
            old(self).wf(),
        ensures
            final(self).wf(),
            final(self).width == old(self).width,
            final(self).height == old(self).height,
            forall|x: int, y: int|
                final(self).marked(x, y) == (old(self).marked(x, y) || (x == cell.x && y == cell.y
                    && 0 <= x < old(self).width && 0 <= y < old(self).height)),
    {
        if cell.x >= 0 && cell.y >= 0 && (cell.x as usize) < self.width && (cell.y as usize)
            < self.height {
            proof {
                lemma_flat_index_in_range(
                    cell.x as int,
                    cell.y as int,
                    self.width as int,
                    self.height as int,
                );
            }
            let i = (cell.y as usize) * self.width + (cell.x as usize);
            self.visited[i] = true;
            proof {
                assert forall|x: int, y: int|
                    self.marked(x, y) == (old(self).marked(x, y) || (x == cell.x && y == cell.y
                        && 0 <= x < old(self).width && 0 <= y < old(self).height)) by {
                    if 0 <= x < self.width && 0 <= y < self.height {
                        lemma_flat_index_in_range(x, y, self.width as int, self.height as int);
                        if x != cell.x || y != cell.y {
                            lemma_flat_index_injective(
                                x,
                                y,
                                cell.x as int,
                                cell.y as int,
                                self.width as int,
                            );
                        }
                    }
                }
            }
        }
    }

    /// Whether `cell` has been visited.
    pub fn is_marked(&self, cell: GridCell) -> (r: bool)
        requires
            self.wf(),
        ensures
            r == self.marked(cell.x as int, cell.y as int),
    {
        if cell.x >= 0 && cell.y >= 0 && (cell.x as usize) < self.width && (cell.y as usize)
            < self.height {
            proof {
                lemma_flat_index_in_range(
                    cell.x as int,
                    cell.y as int,
                    self.width as int,
                    self.height as int,
                );
            }
            let i = (cell.y as usize) * self.width + (cell.x as usize);
            self.visited[i]
        } else {
            false
        }
    }
}

/// How many offsets (dx, dy') with dy' fixed and dx in [dx, r] fall inside
/// the disc of radius r and land on an unvisited cell.
pub open spec fn row_unvisited(v: VisitedGrid, cx: int, cy: int, r: int, dy: int, dx: int) -> int
    decreases r + 1 - dx,
{
    if dx > r {
        0
    } else {
        (if dx * dx + dy * dy <= r * r && !v.marked(cx + dx, cy + dy) {
            1int
        } else {
            0int
        }) + row_unvisited(v, cx, cy, r, dy, dx + 1)
    }
}

/// How many offsets with dy in [dy, r] fall inside the disc of radius r
/// and land on an unvisited cell.
pub open spec fn disc_unvisited(v: VisitedGrid, cx: int, cy: int, r: int, dy: int) -> int
    decreases r + 1 - dy,
{
    if dy > r {
        0
    } else {
        row_unvisited(v, cx, cy, r, dy, -r) + disc_unvisited(v, cx, cy, r, dy + 1)
    }
}

/// Whether the cell at wide signed coordinates is marked visited.
fn marked_at(v: &VisitedGrid, x: i64, y: i64) -> (r: bool)
    requires
        v.wf(),
    ensures
        r == v.marked(x as int, y as int),
{
    if x >= 0 && y >= 0 && x < v.width as i64 && y < v.height as i64 {
        proof {
            lemma_flat_index_in_range(x as int, y as int, v.width as int, v.height as int);
        }
        let i = (y as usize) * v.width + (x as usize);
        v.visited[i]
    } else {
        false
    }
}

/// Row counts stay within the number of offsets considered.
proof fn lemma_row_unvisited_range(v: VisitedGrid, cx: int, cy: int, r: int, dy: int, dx: int)
    requires
        -r <= dx <= r + 1,
    ensures
        0 <= row_unvisited(v, cx, cy, r, dy, dx) <= r + 1 - dx,
    decreases r + 1 - dx,
{
    if dx <= r {
        lemma_row_unvisited_range(v, cx, cy, r, dy, dx + 1);
    }
}

/// Disc counts stay within the number of offsets considered.
proof fn lemma_disc_unvisited_range(v: VisitedGrid, cx: int, cy: int, r: int, dy: int)
    requires
        -r <= dy <= r + 1,
        r >= 0,
    ensures
        0 <= disc_unvisited(v, cx, cy, r, dy) <= (r + 1 - dy) * (2 * r + 1),
    decreases r + 1 - dy,
{
    if dy <= r {
        lemma_disc_unvisited_range(v, cx, cy, r, dy + 1);
        lemma_row_unvisited_range(v, cx, cy, r, dy, -r);
        assert((r + 1 - dy) * (2 * r + 1) == (r + 1 - (dy + 1)) * (2 * r + 1) + (2 * r + 1))
            by (nonlinear_arith);
    } else {
        assert((r + 1 - dy) * (2 * r + 1) >= 0) by (nonlinear_arith)
            requires
                r >= 0,
                r < dy <= r + 1,
        ;
    }
}

/// Counts the unvisited cells within Euclidean radius `r` of `center`:
/// the coverage gain a candidate goal would offer.  Cells outside the
/// mask count as unvisited.
pub fn unvisited_count_in_radius(v: &VisitedGrid, center: GridCell, r: i32) -> (count: i32)
    requires
        v.wf(),
        0 <= r <= 1000,
    ensures
        count == disc_unvisited(*v, center.x as int, center.y as int, r as int, -r as int),
{
    let cx = center.x as i64;
    let cy = center.y as i64;
    let mut count: i32 = 0;
    let mut dy: i32 = -r;
    proof {
        lemma_disc_unvisited_range(*v, cx as int, cy as int, r as int, -r as int);
    }
    while dy <= r
        invariant
            v.wf(),
            0 <= r <= 1000,
            cx == center.x as int,
            cy == center.y as int,
            -r <= dy <= r + 1,
            0 <= count,
            count + disc_unvisited(*v, cx as int, cy as int, r as int, dy as int)
                == disc_unvisited(*v, cx as int, cy as int, r as int, -r as int),
            disc_unvisited(*v, cx as int, cy as int, r as int, -r as int) <= (2 * r + 1) * (2 * r
                + 1),
        decreases r + 1 - dy,
    {
        let mut dx: i32 = -r;
        while dx <= r
            invariant
                v.wf(),
                0 <= r <= 1000,
                cx == center.x as int,
                cy == center.y as int,
                -r <= dy <= r,
                -r <= dx <= r + 1,
                0 <= count,
                count + row_unvisited(*v, cx as int, cy as int, r as int, dy as int, dx as int)
                    + disc_unvisited(*v, cx as int, cy as int, r as int, dy + 1) == disc_unvisited(
                    *v,
                    cx as int,
                    cy as int,
                    r as int,
                    -r as int,
                ),
                disc_unvisited(*v, cx as int, cy as int, r as int, -r as int) <= (2 * r + 1) * (2
                    * r + 1),
            decreases r + 1 - dx,
        {
            proof {
                lemma_row_unvisited_range(*v, cx as int, cy as int, r as int, dy as int, dx as int);
                lemma_row_unvisited_range(*v, cx as int, cy as int, r as int, dy as int, dx + 1);
                lemma_disc_unvisited_range(*v, cx as int, cy as int, r as int, dy + 1);
                assert((2 * r + 1) * (2 * r + 1) <= 4004001) by (nonlinear_arith)
                    requires
                        0 <= r <= 1000,
                ;
                assert(0 <= dx * dx <= 1000000 && 0 <= dy * dy <= 1000000 && 0 <= r * r
                    <= 1000000) by (nonlinear_arith)
                    requires
                        -1000 <= dx <= 1000,
                        -1000 <= dy <= 1000,
                        0 <= r <= 1000,
                ;
            }
            if dx * dx + dy * dy <= r * r {
                if !marked_at(v, cx + dx as i64, cy + dy as i64) {
                    count = count + 1;
                }
            }
            dx = dx + 1;
        }
        dy = dy + 1;
    }
    count
}

} // verus!
