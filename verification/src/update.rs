//! Grid updater: integrates one sensor beam into the occupancy grid.  The
//! caller samples world points along the beam at grid-resolution spacing;
//! every intermediate sample is marked Free, and the terminal sample is
//! marked Solid only when the return came from inside the sensor's
//! reliable range.  Samples outside the grid are dropped; the grid never
//! grows.

use vstd::prelude::*;

verus! {

use crate::grid::{CellState, GridCell, OccupancyGrid, WorldPos};

/// The state cell (x, y) holds after integrating a beam whose sample
/// points were `samples` into `g0`: Solid when it holds the terminal
/// sample of a solid return, Free when it holds an intermediate sample,
/// its old state otherwise.
pub open spec fn beam_cell_state(
    g0: OccupancyGrid,
    samples: Seq<WorldPos>,
    solid_end: bool,
    x: int,
    y: int,
) -> CellState {
    if solid_end && samples.len() > 0 && g0.world_to_cell_spec(samples.last()) == Some(
        GridCell { x: x as i32, y: y as i32 },
    ) {
        CellState::Solid
    } else if exists|i: int|
        0 <= i < samples.len() - 1 && g0.world_to_cell_spec(#[trigger] samples[i]) == Some(
            GridCell { x: x as i32, y: y as i32 },
        ) {
        CellState::Free
    } else {
        g0.cell_state(x, y)
    }
}

/// The same, with only the first `upto` samples integrated; the terminal
/// mark lands once `upto` covers the whole beam.
spec fn beam_cell_state_upto(
    g0: OccupancyGrid,
    samples: Seq<WorldPos>,
    solid_end: bool,
    upto: int,
    x: int,
    y: int,
) -> CellState {
    if solid_end && upto == samples.len() && samples.len() > 0 && g0.world_to_cell_spec(
        samples.last(),
    ) == Some(GridCell { x: x as i32, y: y as i32 }) {
        CellState::Solid
    } else if exists|i: int|
        0 <= i < upto && i < samples.len() - 1 && g0.world_to_cell_spec(#[trigger] samples[i])
            == Some(GridCell { x: x as i32, y: y as i32 }) {
        CellState::Free
    } else {
        g0.cell_state(x, y)
    }
}

/// Integrates one beam: marks the cells under intermediate samples Free
/// and, for a solid return, the cell under the terminal sample Solid.
pub fn integrate_beam(grid: &mut OccupancyGrid, samples: &Vec<WorldPos>, solid_end: bool)
    requires
        old(grid).wf(),
    ensures
        final(grid).wf(),
        final(grid).width == old(grid).width,
        final(grid).height == old(grid).height,
        final(grid).resolution == old(grid).resolution,
        final(grid).origin == old(grid).origin,
        forall|x: int, y: int|
            old(grid).in_bounds(x, y) ==> final(grid).cell_state(x, y) == beam_cell_state(
                *old(grid),
                samples@,
                solid_end,
                x,
                y,
            ),
{
    let ghost g0 = *grid;
    let n = samples.len();
    let mut i: usize = 0;
    while i < n
        invariant
            grid.wf(),
            n == samples@.len(),
            i <= n,
            grid.width == g0.width,
            grid.height == g0.height,
            grid.resolution == g0.resolution,
            grid.origin == g0.origin,
            forall|x: int, y: int|
                g0.in_bounds(x, y) ==> grid.cell_state(x, y) == beam_cell_state_upto(
                    g0,
                    samples@,
                    solid_end,
                    i as int,
                    x,
                    y,
                ),
        decreases n - i,
    {
        let is_last = i == n - 1;
        let p = samples[i];
        let ghost pre = *grid;
        if is_last {
            if solid_end {
                if let Option::Some(c) = grid.world_to_cell(p) {
                    grid.set(c.x as usize, c.y as usize, CellState::Solid);
                }
            }
        } else {
            if let Option::Some(c) = grid.world_to_cell(p) {
                grid.set(c.x as usize, c.y as usize, CellState::Free);
            }
        }
        proof {
            assert forall|x: int, y: int| g0.in_bounds(x, y) implies grid.cell_state(x, y)
                == beam_cell_state_upto(g0, samples@, solid_end, i + 1, x, y) by {
                let here = GridCell { x: x as i32, y: y as i32 };
                if is_last {
                    if solid_end && g0.world_to_cell_spec(p) == Some(here) {
                        assert(grid.cell_state(x, y) == CellState::Solid);
                    } else {
                        assert(grid.cell_state(x, y) == pre.cell_state(x, y));
                        assert forall|j: int|
                            0 <= j < i + 1 && j < samples@.len() - 1 && g0.world_to_cell_spec(
                                #[trigger] samples@[j],
                            ) == Some(here) implies 0 <= j < i by {}
                    }
                } else {
                    if g0.world_to_cell_spec(p) == Some(here) {
                        assert(grid.cell_state(x, y) == CellState::Free);
                        assert(0 <= i < i + 1 && i < samples@.len() - 1 && g0.world_to_cell_spec(
                            samples@[i as int],
                        ) == Some(here));
                    } else {
                        assert(grid.cell_state(x, y) == pre.cell_state(x, y));
                        assert forall|j: int|
                            0 <= j < i + 1 && j < samples@.len() - 1 && g0.world_to_cell_spec(
                                #[trigger] samples@[j],
                            ) == Some(here) implies 0 <= j < i by {}
                    }
                }
            }
        }
        i = i + 1;
    }
    proof {
        assert forall|x: int, y: int| g0.in_bounds(x, y) implies grid.cell_state(x, y)
            == beam_cell_state(g0, samples@, solid_end, x, y) by {
            assert(grid.cell_state(x, y) == beam_cell_state_upto(
                g0,
                samples@,
                solid_end,
                n as int,
                x,
                y,
            ));
        }
    }
}

} // verus!
