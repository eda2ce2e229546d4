//! Occupancy grid: a bounded 2D field of cells, each Unknown, Free or Solid,
//! with fixed-point conversions between world positions and cell coordinates.

use vstd::prelude::*;

verus! {

use vstd::arithmetic::div_mod::lemma_div_multiples_vanish_fancy;

/// Largest cell count allowed along either grid axis.
pub const MAX_GRID_DIM: usize = 32768;

/// Largest grid resolution (world units per cell).
pub const MAX_RESOLUTION: i64 = 1000000;

/// Largest magnitude allowed for either coordinate of the grid origin.
pub const MAX_ORIGIN: i64 = 1000000000000000;

/// Sensed state of one grid cell.
#[derive(Clone, Copy, PartialEq, Eq, Structural, Debug)]
pub enum CellState {
    Unknown,
    Free,
    Solid,
}

/// A cell coordinate; may lie outside the grid.
#[derive(Clone, Copy, PartialEq, Eq, Structural, Debug)]
pub struct GridCell {
    pub x: i32,
    pub y: i32,
}

/// A world-space position in integer world units.
#[derive(Clone, Copy, PartialEq, Eq, Structural, Debug)]
pub struct WorldPos {
    pub x: i64,
    pub y: i64,
}

/// Occupancy map: a row-major flat array of cell states, plus the placement
/// of the grid in world space.  Cell (0, 0)'s corner sits at `origin`; each
/// cell spans `resolution` world units.  Every cell starts Unknown.
pub struct OccupancyGrid {
    pub width: usize,
    pub height: usize,
    pub resolution: i64,
    pub origin: WorldPos,
    pub cells: Vec<CellState>,
}

impl OccupancyGrid {
    /// The grid's structural invariant: the flat array matches the declared
    /// dimensions, and every placement parameter is within the fixed-point
    /// working range.
    pub open spec fn wf(self) -> bool {
        &&& self.cells.len() == self.width * self.height
        &&& 1 <= self.width <= MAX_GRID_DIM
        &&& 1 <= self.height <= MAX_GRID_DIM
        &&& 1 <= self.resolution <= MAX_RESOLUTION
        &&& -MAX_ORIGIN <= self.origin.x <= MAX_ORIGIN
        &&& -MAX_ORIGIN <= self.origin.y <= MAX_ORIGIN
    }

    /// Whether integer coordinates (x, y) name a cell of the grid.
    pub open spec fn in_bounds(self, x: int, y: int) -> bool {
        0 <= x < self.width && 0 <= y < self.height
    }

    /// The state of the in-bounds cell (x, y).
    pub open spec fn cell_state(self, x: int, y: int) -> CellState {
        self.cells[y * self.width + x]
    }

    /// A cell is blocked when it lies outside the grid or is sensed Solid.
    /// Out-of-bounds cells count as obstacles in every safety computation.
    pub open spec fn blocked(self, x: int, y: int) -> bool {
        !self.in_bounds(x, y) || self.cell_state(x, y) == CellState::Solid
    }

    /// Whether (x, y) holds a Free cell.
    pub open spec fn free_at(self, x: int, y: int) -> bool {
        self.in_bounds(x, y) && self.cell_state(x, y) == CellState::Free
    }

    /// The cell containing world position `p`, by floor-based indexing, or
    /// None when `p` falls outside the grid's extent.
    pub open spec fn world_to_cell_spec(self, p: WorldPos) -> Option<GridCell> {
        let rx = p.x - self.origin.x;
        let ry = p.y - self.origin.y;
        if 0 <= rx < self.width * self.resolution && 0 <= ry < self.height * self.resolution {
            Some(
                GridCell {
                    x: (rx / (self.resolution as int)) as i32,
                    y: (ry / (self.resolution as int)) as i32,
                },
            )
        } else {
            None
        }
    }

    /// The world position of cell `c`'s center.
    pub open spec fn cell_to_world_spec(self, c: GridCell) -> WorldPos {
        WorldPos {
            x: (self.origin.x + c.x * self.resolution + self.resolution / 2) as i64,
            y: (self.origin.y + c.y * self.resolution + self.resolution / 2) as i64,
        }
    }

    /// Creates a grid of the given dimensions with every cell Unknown.
    pub fn new(width: usize, height: usize, resolution: i64, origin: WorldPos) -> (g: Self)
        requires
            1 <= width <= MAX_GRID_DIM,
            1 <= height <= MAX_GRID_DIM,
            1 <= resolution <= MAX_RESOLUTION,
            -MAX_ORIGIN <= origin.x <= MAX_ORIGIN,
            -MAX_ORIGIN <= origin.y <= MAX_ORIGIN,
        ensures
            g.wf(),
            g.width == width,
            g.height == height,
            g.resolution == resolution,
            g.origin == origin,
            forall|x: int, y: int| g.in_bounds(x, y) ==> g.cell_state(x, y) == CellState::Unknown,
    {
        proof {
            lemma_dim_product_bounded(width as int, height as int);
        }
        let n = width * height;
        let mut cells: Vec<CellState> = Vec::new();
        let mut i: usize = 0;
        while i < n
            invariant
                i <= n,
                cells.len() == i,
                forall|k: int| 0 <= k < i ==> cells[k] == CellState::Unknown,
            decreases n - i,
        {
            cells.push(CellState::Unknown);
            i = i + 1;
        }
        let g = Self { width, height, resolution, origin, cells };
        proof {
            assert forall|x: int, y: int| g.in_bounds(x, y) implies g.cell_state(x, y)
                == CellState::Unknown by {
                lemma_flat_index_in_range(x, y, width as int, height as int);
            }
        }
        g
    }

    /// Row-major index of the in-bounds cell (x, y).
    pub fn index(&self, x: usize, y: usize) -> (i: usize)
        requires
            self.wf(),
            x < self.width,
            y < self.height,
        ensures
            i == y * self.width + x,
            i < self.cells.len(),
    {
        proof {
            lemma_flat_index_in_range(x as int, y as int, self.width as int, self.height as int);
        }
        y * self.width + x
    }

    /// Writes `state` into cell (x, y); out-of-bounds writes are dropped.
    pub fn set(&mut self, x: usize, y: usize, state: CellState)
        requires
            old(self).wf(),
        ensures
            final(self).wf(),
            final(self).width == old(self).width,
            final(self).height == old(self).height,
            final(self).resolution == old(self).resolution,
            final(self).origin == old(self).origin,
            forall|xi: int, yi: int|
                old(self).in_bounds(xi, yi) ==> final(self).cell_state(xi, yi) == (
                if xi == x && yi == y {
                    state
                } else {
                    old(self).cell_state(xi, yi)
                }),
    {
        if x < self.width && y < self.height {
            let i = self.index(x, y);
            self.cells[i] = state;
            proof {
                assert forall|xi: int, yi: int| old(self).in_bounds(xi, yi) implies self.cell_state(
                    xi,
                    yi,
                ) == (if xi == x && yi == y {
                    state
                } else {
                    old(self).cell_state(xi, yi)
                }) by {
                    lemma_flat_index_in_range(xi, yi, self.width as int, self.height as int);
                    if xi != x || yi != y {
                        lemma_flat_index_injective(
                            xi,
                            yi,
                            x as int,
                            y as int,
                            self.width as int,
                        );
                    }
                }
            }
        }
    }

    /// Reads cell (x, y), or None outside the grid.
    pub fn get(&self, x: usize, y: usize) -> (r: Option<CellState>)
        requires
            self.wf(),
        ensures
            r == (if self.in_bounds(x as int, y as int) {
                Some(self.cell_state(x as int, y as int))
            } else {
                None::<CellState>
            }),
    {
        if x < self.width && y < self.height {
            let i = self.index(x, y);
            Some(self.cells[i])
        } else {
            None
        }
    }

    /// Reads the cell at a signed coordinate, or None outside the grid.
    pub fn get_cell(&self, cell: GridCell) -> (r: Option<CellState>)
        requires
            self.wf(),
        ensures
            r == (if self.in_bounds(cell.x as int, cell.y as int) {
                Some(self.cell_state(cell.x as int, cell.y as int))
            } else {
                None::<CellState>
            }),
    {
        if cell.x >= 0 && cell.y >= 0 {
            self.get(cell.x as usize, cell.y as usize)
        } else {
            None
        }
    }

    /// Converts a world position to the cell containing it.
    pub fn world_to_cell(&self, pos: WorldPos) -> (r: Option<GridCell>)
        requires
            self.wf(),
        ensures
            r == self.world_to_cell_spec(pos),
            r matches Some(c) ==> self.in_bounds(c.x as int, c.y as int),
    {
        proof {
            lemma_extent_bounded(self.width as int, self.resolution as int);
            lemma_extent_bounded(self.height as int, self.resolution as int);
        }
        let max_x = self.origin.x + (self.width as i64) * self.resolution;
        let max_y = self.origin.y + (self.height as i64) * self.resolution;
        if pos.x < self.origin.x || pos.x >= max_x || pos.y < self.origin.y || pos.y >= max_y {
            return None;
        }
        let rx = (pos.x - self.origin.x) as u64;
        let ry = (pos.y - self.origin.y) as u64;
        let qx = rx / (self.resolution as u64);
        let qy = ry / (self.resolution as u64);
        proof {
            lemma_div_in_range(rx as int, self.resolution as int, self.width as int);
            lemma_div_in_range(ry as int, self.resolution as int, self.height as int);
        }
        Some(GridCell { x: qx as i32, y: qy as i32 })
    }

    /// All (cell, state) pairs of the grid in row-major order, for
    /// external diagnostics and rendering.
    pub fn iter(&self) -> (v: Vec<(GridCell, CellState)>)
        requires
            self.wf(),
        ensures
            v@.len() == self.width * self.height,
            forall|x: int, y: int|
                self.in_bounds(x, y) ==> v@[y * self.width + x] == (
                (GridCell { x: x as i32, y: y as i32 }),
                self.cell_state(x, y),
            ),
    {
        let mut v: Vec<(GridCell, CellState)> = Vec::new();
        let mut y: usize = 0;
        while y < self.height
            invariant
                self.wf(),
                y <= self.height,
                v@.len() == y * self.width,
                forall|xi: int, yi: int|
                    0 <= xi < self.width && 0 <= yi < y ==> v@[yi * self.width + xi] == (
                    (GridCell { x: xi as i32, y: yi as i32 }),
                    self.cell_state(xi, yi),
                ),
            decreases self.height - y,
        {
            let mut x: usize = 0;
            while x < self.width
                invariant
                    self.wf(),
                    y < self.height,
                    x <= self.width,
                    v@.len() == y * self.width + x,
                    forall|xi: int, yi: int|
                        0 <= xi < self.width && 0 <= yi < y ==> v@[yi * self.width + xi] == (
                        (GridCell { x: xi as i32, y: yi as i32 }),
                        self.cell_state(xi, yi),
                    ),
                    forall|xi: int|
                        0 <= xi < x ==> v@[y * self.width + xi] == (
                        (GridCell { x: xi as i32, y: y as i32 }),
                        self.cell_state(xi, y as int),
                    ),
                decreases self.width - x,
            {
                proof {
                    lemma_flat_index_in_range(x as int, y as int, self.width as int, self.height as int);
                }
                let i = self.index(x, y);
                v.push((GridCell { x: x as i32, y: y as i32 }, self.cells[i]));
                proof {
                    assert forall|xi: int, yi: int|
                        0 <= xi < self.width && 0 <= yi < y implies v@[yi * self.width + xi] == (
                        (GridCell { x: xi as i32, y: yi as i32 }),
                        self.cell_state(xi, yi),
                    ) by {
                        lemma_flat_row_bound(xi, yi, y as int, self.width as int);
                    }
                }
                x = x + 1;
            }
            proof {
                assert((y + 1) * self.width == y * self.width + self.width) by (nonlinear_arith);
                assert forall|xi: int, yi: int|
                    0 <= xi < self.width && 0 <= yi < y + 1 implies v@[yi * self.width + xi] == (
                    (GridCell { x: xi as i32, y: yi as i32 }),
                    self.cell_state(xi, yi),
                ) by {
                    lemma_flat_row_bound(xi, yi, y + 1, self.width as int);
                }
            }
            y = y + 1;
        }
        proof {
            assert(v@.len() == self.width * self.height) by (nonlinear_arith)
                requires
                    v@.len() == self.height * self.width,
            ;
        }
        v
    }

    /// Converts a cell to the world position of its center.
    pub fn cell_to_world(&self, cell: GridCell) -> (p: WorldPos)
        requires
            self.wf(),
        ensures
            p == self.cell_to_world_spec(cell),
    {
        proof {
            lemma_cell_scale_bounded(cell.x as int, self.resolution as int);
            lemma_cell_scale_bounded(cell.y as int, self.resolution as int);
        }
        let half = (self.resolution as u64 / 2) as i64;
        WorldPos {
            x: self.origin.x + (cell.x as i64) * self.resolution + half,
            y: self.origin.y + (cell.y as i64) * self.resolution + half,
        }
    }
}

/// A flat row-major index stays below width * height.
pub proof fn lemma_flat_index_in_range(x: int, y: int, width: int, height: int)
    requires
        0 <= x < width,
        0 <= y < height,
    ensures
        0 <= y * width + x < width * height,
{
    assert(y * width + x < width * height) by (nonlinear_arith)
        requires
            0 <= x < width,
            0 <= y < height,
    ;
}

/// A flat index from a row below `rows` stays below rows * width.
pub proof fn lemma_flat_row_bound(x: int, y: int, rows: int, width: int)
    requires
        0 <= x < width,
        0 <= y < rows,
    ensures
        0 <= y * width + x < rows * width,
{
    assert(0 <= y * width + x < rows * width) by (nonlinear_arith)
        requires
            0 <= x < width,
            0 <= y < rows,
    ;
}

/// Distinct in-bounds cells have distinct flat indices.
pub proof fn lemma_flat_index_injective(x1: int, y1: int, x2: int, y2: int, width: int)
    requires
        0 <= x1 < width,
        0 <= x2 < width,
        0 <= y1,
        0 <= y2,
        (x1, y1) != (x2, y2),
    ensures
        y1 * width + x1 != y2 * width + x2,
{
    assert(y1 * width + x1 != y2 * width + x2) by (nonlinear_arith)
        requires
            0 <= x1 < width,
            0 <= x2 < width,
            0 <= y1,
            0 <= y2,
            (x1, y1) != (x2, y2),
    ;
}

/// The cell count of a well-formed grid fits comfortably in usize.
pub proof fn lemma_dim_product_bounded(width: int, height: int)
    requires
        0 <= width <= MAX_GRID_DIM,
        0 <= height <= MAX_GRID_DIM,
    ensures
        0 <= width * height <= 0x40000000,
{
    assert(0 <= width * height <= 0x40000000) by (nonlinear_arith)
        requires
            0 <= width <= 32768,
            0 <= height <= 32768,
    ;
}

/// A well-formed grid's world-space extent along one axis fits in i64.
proof fn lemma_extent_bounded(dim: int, res: int)
    requires
        0 <= dim <= MAX_GRID_DIM,
        0 <= res <= MAX_RESOLUTION,
    ensures
        0 <= dim * res <= 0x8000000000,
{
    assert(0 <= dim * res <= 0x8000000000) by (nonlinear_arith)
        requires
            0 <= dim <= 32768,
            0 <= res <= 1000000,
    ;
}

/// Scaling any 32-bit cell coordinate by a well-formed resolution stays
/// well inside i64.
proof fn lemma_cell_scale_bounded(c: int, res: int)
    requires
        -0x80000000 <= c <= 0x80000000,
        0 <= res <= MAX_RESOLUTION,
    ensures
        -0x2000000000000000 <= c * res <= 0x2000000000000000,
{
    assert(-0x2000000000000000 <= c * res <= 0x2000000000000000) by (nonlinear_arith)
        requires
            -0x80000000 <= c <= 0x80000000,
            0 <= res <= 1000000,
    ;
}

/// Floor division keeps an in-extent offset within the cell range.
proof fn lemma_div_in_range(r: int, res: int, dim: int)
    requires
        res >= 1,
        0 <= r < dim * res,
    ensures
        0 <= r / res < dim,
{
    assert(0 <= r / res < dim) by (nonlinear_arith)
        requires
            res >= 1,
            0 <= r < dim * res,
    ;
}

/// Mapping a valid cell to its world-space center and back yields the same
/// cell: fixed-point grid snapping round-trips exactly.
pub proof fn lemma_world_cell_round_trip(g: OccupancyGrid, c: GridCell)
    requires
        g.wf(),
        g.in_bounds(c.x as int, c.y as int),
    ensures
        g.world_to_cell_spec(g.cell_to_world_spec(c)) == Some(c),
{
    let res = g.resolution as int;
    let half = res / 2;
    let p = g.cell_to_world_spec(c);
    lemma_cell_scale_bounded(c.x as int, res);
    lemma_cell_scale_bounded(c.y as int, res);
    assert(p.x == g.origin.x + c.x * res + half);
    assert(p.y == g.origin.y + c.y * res + half);
    let rx = p.x - g.origin.x;
    let ry = p.y - g.origin.y;
    assert(rx == c.x * res + half);
    assert(ry == c.y * res + half);
    assert(0 <= half < res);
    assert(0 <= c.x * res && (c.x + 1) * res <= g.width * res) by (nonlinear_arith)
        requires
            res >= 1,
            0 <= c.x < g.width,
    ;
    assert(0 <= c.y * res && (c.y + 1) * res <= g.height * res) by (nonlinear_arith)
        requires
            res >= 1,
            0 <= c.y < g.height,
    ;
    assert((c.x + 1) * res == c.x * res + res) by (nonlinear_arith);
    assert((c.y + 1) * res == c.y * res + res) by (nonlinear_arith);
    lemma_div_multiples_vanish_fancy(c.x as int, half, res);
    assert(res * c.x == c.x * res) by (nonlinear_arith);
    lemma_div_multiples_vanish_fancy(c.y as int, half, res);
    assert(res * c.y == c.y * res) by (nonlinear_arith);
}

} // verus!
