//! Frontier selection: breadth-first search outward from the agent's cell
//! over Free cells, returning a frontier cell that satisfies the active
//! safety policy, together with the reachability notions the search is
//! specified by.

use vstd::prelude::*;

verus! {

use vstd::seq_lib::*;
use vstd::set_lib::{lemma_int_range, lemma_len_subset, set_int_range};
use crate::distance::{
    band_cell, cell_state_at, frontier_cell, has_unknown_neighbor, is_safe_cell,
    is_wall_band_cell, manhattan, safe_cell,
};
use crate::grid::{lemma_dim_product_bounded, lemma_flat_index_in_range, lemma_flat_index_injective,
    CellState, GridCell, OccupancyGrid};

/// Which frontier cells qualify as exploration goals: they must be safe,
/// and during WallSweep additionally confined to the wall band.
#[derive(Clone, Copy, PartialEq, Eq, Structural, Debug)]
pub struct FrontierPolicy {
    pub safe_min: i32,
    pub band_max: i32,
    pub banded: bool,
}

/// A cell qualifies as an exploration goal under `pol` when it is a
/// frontier cell, safe, and (for a banded policy) inside the wall band.
pub open spec fn qualifies(g: OccupancyGrid, pol: FrontierPolicy, x: int, y: int) -> bool {
    &&& frontier_cell(g, x, y)
    &&& safe_cell(g, x, y, pol.safe_min as int)
    &&& pol.banded ==> band_cell(g, x, y, pol.safe_min as int, pol.band_max as int)
}

/// Two cells are 4-adjacent.
pub open spec fn adjacent4(a: GridCell, b: GridCell) -> bool {
    manhattan(a.x as int, a.y as int, b.x as int, b.y as int) == 1
}

/// A walk over the grid: consecutive cells are 4-adjacent and every cell
/// after the first is Free.  The first cell is where the walk starts and
/// need not be Free itself.
pub open spec fn free_path(g: OccupancyGrid, p: Seq<GridCell>) -> bool {
    &&& p.len() >= 1
    &&& forall|i: int| 0 <= i < p.len() - 1 ==> adjacent4(#[trigger] p[i], p[i + 1])
    &&& forall|i: int| 1 <= i < p.len() ==> g.free_at(#[trigger] p[i].x as int, p[i].y as int)
}

/// Cell `c` can be reached from `start` by walking over Free cells.
pub open spec fn reachable_free(g: OccupancyGrid, start: GridCell, c: GridCell) -> bool {
    exists|p: Seq<GridCell>| free_path(g, p) && p.first() == start && p.last() == c
}

/// Every cell reaches itself.
pub proof fn lemma_reachable_self(g: OccupancyGrid, start: GridCell)
    ensures
        reachable_free(g, start, start),
{
    let p = seq![start];
    assert(free_path(g, p) && p.first() == start && p.last() == start);
}

/// Reachability extends across one step onto an adjacent Free cell.
pub proof fn lemma_reachable_step(g: OccupancyGrid, start: GridCell, c: GridCell, n: GridCell)
    requires
        reachable_free(g, start, c),
        adjacent4(c, n),
        g.free_at(n.x as int, n.y as int),
    ensures
        reachable_free(g, start, n),
{
    let p = choose|p: Seq<GridCell>| free_path(g, p) && p.first() == start && p.last() == c;
    let p2 = p.push(n);
    assert(p2.last() == n);
    assert(p2.first() == start);
    assert(free_path(g, p2)) by {
        assert(forall|i: int| 0 <= i < p.len() - 1 ==> p2[i] == #[trigger] p[i] && p2[i + 1] == p[i
            + 1]);
        assert(p2[p.len() - 1] == c && p2[p.len() as int] == n);
        assert(forall|i: int| 1 <= i < p.len() ==> p2[i] == #[trigger] p[i]);
    }
}

/// Whether the search has recorded cell (x, y) (mask indexed row-major).
pub open spec fn seen_at(g: OccupancyGrid, mask: Seq<bool>, x: int, y: int) -> bool {
    g.in_bounds(x, y) && mask[y * g.width + x]
}

/// Whether the search has recorded cell `c`.
pub open spec fn seen(g: OccupancyGrid, mask: Seq<bool>, c: GridCell) -> bool {
    seen_at(g, mask, c.x as int, c.y as int)
}

/// The breadth-first search's working-state invariant: the mask covers the
/// grid, every recorded cell is reachable (and Free, unless it is the start
/// cell), the queue holds exactly the recorded cells, and holds each once.
pub open spec fn bfs_inv(
    g: OccupancyGrid,
    start: GridCell,
    mask: Seq<bool>,
    queue: Seq<GridCell>,
) -> bool {
    &&& mask.len() == g.width * g.height
    &&& forall|c: GridCell| #[trigger]
        seen(g, mask, c) ==> reachable_free(g, start, c) && (c == start || g.free_at(
            c.x as int,
            c.y as int,
        ))
    &&& forall|i: int| 0 <= i < queue.len() ==> seen(g, mask, #[trigger] queue[i])
    &&& forall|c: GridCell| #[trigger]
        seen(g, mask, c) ==> exists|i: int| 0 <= i < queue.len() && queue[i] == c
    &&& queue.no_duplicates()
}

/// Whether the mask records cell `c`.
fn is_seen(grid: &OccupancyGrid, mask: &Vec<bool>, c: GridCell) -> (r: bool)
    requires
        grid.wf(),
        mask.len() == grid.width * grid.height,
        grid.in_bounds(c.x as int, c.y as int),
    ensures
        r == seen(*grid, mask@, c),
{
    let i = grid.index(c.x as usize, c.y as usize);
    mask[i]
}

/// Records cell `c` in the mask.
fn mark_seen(grid: &OccupancyGrid, mask: &mut Vec<bool>, c: GridCell)
    requires
        grid.wf(),
        old(mask).len() == grid.width * grid.height,
        grid.in_bounds(c.x as int, c.y as int),
    ensures
        final(mask).len() == grid.width * grid.height,
        forall|c2: GridCell|
            seen(*grid, final(mask)@, c2) == (seen(*grid, old(mask)@, c2) || c2 == c),
{
    let i = grid.index(c.x as usize, c.y as usize);
    mask[i] = true;
    proof {
        assert forall|c2: GridCell|
            seen(*grid, mask@, c2) == (seen(*grid, old(mask)@, c2) || c2 == c) by {
            if grid.in_bounds(c2.x as int, c2.y as int) {
                lemma_flat_index_in_range(c2.x as int, c2.y as int, grid.width as int, grid.height as int);
                if c2 != c {
                    lemma_flat_index_injective(
                        c2.x as int,
                        c2.y as int,
                        c.x as int,
                        c.y as int,
                        grid.width as int,
                    );
                }
            }
        }
    }
}

/// When (x, y) holds an unrecorded Free cell, records it and appends it to
/// the queue; otherwise changes nothing.
fn seed_if_free(
    grid: &OccupancyGrid,
    start: GridCell,
    mask: &mut Vec<bool>,
    queue: &mut Vec<GridCell>,
    x: i64,
    y: i64,
)
    requires
        grid.wf(),
        bfs_inv(*grid, start, old(mask)@, old(queue)@),
        grid.free_at(x as int, y as int) ==> reachable_free(
            *grid,
            start,
            (GridCell { x: x as i32, y: y as i32 }),
        ),
    ensures
        bfs_inv(*grid, start, final(mask)@, final(queue)@),
        forall|c: GridCell| seen(*grid, old(mask)@, c) ==> #[trigger] seen(*grid, final(mask)@, c),
        forall|c: GridCell| #[trigger]
            seen(*grid, final(mask)@, c) ==> seen(*grid, old(mask)@, c) || (c.x as int == x
                && c.y as int == y),
        grid.free_at(x as int, y as int) ==> seen(
            *grid,
            final(mask)@,
            (GridCell { x: x as i32, y: y as i32 }),
        ),
        final(queue)@.len() >= old(queue)@.len(),
        forall|i: int| 0 <= i < old(queue)@.len() ==> final(queue)@[i] == old(queue)@[i],
{
    let is_free = match cell_state_at(grid, x, y) {
        Option::Some(s) => s == CellState::Free,
        Option::None => false,
    };
    if is_free {
        let c = GridCell { x: x as i32, y: y as i32 };
        if !is_seen(grid, mask, c) {
            let ghost old_mask = mask@;
            let ghost old_queue = queue@;
            mark_seen(grid, mask, c);
            queue.push(c);
            proof {
                assert(queue@ == old_queue.push(c));
                assert(queue@.no_duplicates()) by {
                    assert(forall|i: int|
                        0 <= i < old_queue.len() ==> #[trigger] old_queue[i] != c);
                }
                assert forall|c2: GridCell| #[trigger]
                    seen(*grid, mask@, c2) implies exists|i: int|
                    0 <= i < queue@.len() && queue@[i] == c2 by {
                    if c2 == c {
                        assert(queue@[old_queue.len() as int] == c2);
                    } else {
                        let i = choose|i: int|
                            0 <= i < old_queue.len() && old_queue[i] == c2;
                        assert(queue@[i] == c2);
                    }
                }
            }
        }
    }
}

/// A duplicate-free sequence of in-bounds cells has at most width * height
/// entries.
proof fn lemma_distinct_cells_bounded(g: OccupancyGrid, q: Seq<GridCell>)
    requires
        g.wf(),
        q.no_duplicates(),
        forall|i: int| 0 <= i < q.len() ==> g.in_bounds(#[trigger] q[i].x as int, q[i].y as int),
    ensures
        q.len() <= g.width * g.height,
{
    let w = g.width as int;
    let h = g.height as int;
    let f = Seq::new(q.len(), |i: int| q[i].y as int * w + q[i].x as int);
    assert(f.no_duplicates()) by {
        assert forall|i: int, j: int| 0 <= i < j < f.len() implies f[i] != f[j] by {
            assert(q[i] != q[j]);
            lemma_flat_index_injective(q[i].x as int, q[i].y as int, q[j].x as int, q[j].y as int, w);
        }
    }
    f.unique_seq_to_set();
    assert(f.to_set().subset_of(set_int_range(0, w * h))) by {
        assert forall|e: int| f.to_set().contains(e) implies set_int_range(0, w * h).contains(
            e,
        ) by {
            let i = choose|i: int| 0 <= i < f.len() && f[i] == e;
            lemma_flat_index_in_range(q[i].x as int, q[i].y as int, w, h);
        }
    }
    lemma_int_range(0, w * h);
    lemma_len_subset(f.to_set(), set_int_range(0, w * h));
}

/// Every cell on a Free walk whose closure the mask contains is recorded:
/// walking from a recorded region cannot leave it.
proof fn lemma_reachable_is_seen(
    g: OccupancyGrid,
    start: GridCell,
    mask: Seq<bool>,
    p: Seq<GridCell>,
)
    requires
        g.wf(),
        free_path(g, p),
        p.first() == start,
        g.in_bounds(start.x as int, start.y as int) ==> seen(g, mask, start),
        !g.in_bounds(start.x as int, start.y as int) ==> forall|n: GridCell|
            adjacent4(start, n) && g.free_at(#[trigger] n.x as int, n.y as int) ==> seen(
                g,
                mask,
                n,
            ),
        forall|c: GridCell, n: GridCell|
            #[trigger] seen(g, mask, c) && #[trigger] adjacent4(c, n) && g.free_at(
                n.x as int,
                n.y as int,
            ) ==> seen(g, mask, n),
    ensures
        g.free_at(p.last().x as int, p.last().y as int) ==> seen(g, mask, p.last()),
    decreases p.len(),
{
    if g.free_at(p.last().x as int, p.last().y as int) {
        if p.len() == 1 {
            assert(p.last() == start);
        } else if p.len() == 2 {
            assert(adjacent4(p[0], p[1]));
            if g.in_bounds(start.x as int, start.y as int) {
                assert(seen(g, mask, start));
            }
        } else {
            let q = p.drop_last();
            assert(free_path(g, q)) by {
                assert(forall|i: int| 0 <= i < q.len() - 1 ==> q[i] == #[trigger] p[i] && q[i + 1]
                    == p[i + 1]);
                assert(forall|i: int| 1 <= i < q.len() ==> q[i] == #[trigger] p[i]);
            }
            assert(q.first() == start);
            assert(g.free_at(q.last().x as int, q.last().y as int));
            lemma_reachable_is_seen(g, start, mask, q);
            assert(q.last() == p[p.len() - 2]);
            assert(adjacent4(p[p.len() - 2], p[p.len() - 1]));
        }
    }
}

/// Searches outward from `start` over Free cells, breadth first, for a
/// frontier cell satisfying `pol`.  Returns such a cell, reachable from
/// `start`, or None when no reachable frontier cell qualifies.
pub fn find_nearest_frontier(grid: &OccupancyGrid, start: GridCell, pol: FrontierPolicy) -> (r:
    Option<GridCell>)
    requires
        grid.wf(),
    ensures
        r matches Some(c) ==> qualifies(*grid, pol, c.x as int, c.y as int) && reachable_free(
            *grid,
            start,
            c,
        ),
        r is None ==> forall|c: GridCell|
            reachable_free(*grid, start, c) ==> !qualifies(
                *grid,
                pol,
                #[trigger] c.x as int,
                c.y as int,
            ),
{
    let w = grid.width;
    let h = grid.height;
    proof {
        lemma_dim_product_bounded(w as int, h as int);
    }
    let n_cells = w * h;
    let mut mask: Vec<bool> = Vec::new();
    let mut i: usize = 0;
    while i < n_cells
        invariant
            i <= n_cells,
            mask.len() == i,
            forall|k: int| 0 <= k < i ==> !mask[k],
        decreases n_cells - i,
    {
        mask.push(false);
        i = i + 1;
    }
    let mut queue: Vec<GridCell> = Vec::new();
    let mut qi: usize = 0;
    proof {
        assert forall|c: GridCell| #[trigger] seen(*grid, mask@, c) implies false by {
            lemma_flat_index_in_range(c.x as int, c.y as int, w as int, h as int);
        }
    }
    if start.x >= 0 && start.y >= 0 && (start.x as usize) < w && (start.y as usize) < h {
        mark_seen(grid, &mut mask, start);
        queue.push(start);
        proof {
            lemma_reachable_self(*grid, start);
            assert forall|c2: GridCell| #[trigger] seen(*grid, mask@, c2) implies exists|j: int|
                0 <= j < queue@.len() && queue@[j] == c2 by {
                assert(c2 == start);
                assert(queue@[0] == c2);
            }
        }
    } else {
        let sx = start.x as i64;
        let sy = start.y as i64;
        proof {
            lemma_reachable_self(*grid, start);
            if grid.free_at(sx + 1, sy as int) {
                lemma_reachable_step(*grid, start, start, GridCell { x: (sx + 1) as i32, y: sy as i32 });
            }
        }
        seed_if_free(grid, start, &mut mask, &mut queue, sx + 1, sy);
        proof {
            if grid.free_at(sx - 1, sy as int) {
                lemma_reachable_step(*grid, start, start, GridCell { x: (sx - 1) as i32, y: sy as i32 });
            }
        }
        seed_if_free(grid, start, &mut mask, &mut queue, sx - 1, sy);
        proof {
            if grid.free_at(sx as int, sy + 1) {
                lemma_reachable_step(*grid, start, start, GridCell { x: sx as i32, y: (sy + 1) as i32 });
            }
        }
        seed_if_free(grid, start, &mut mask, &mut queue, sx, sy + 1);
        proof {
            if grid.free_at(sx as int, sy - 1) {
                lemma_reachable_step(*grid, start, start, GridCell { x: sx as i32, y: (sy - 1) as i32 });
            }
        }
        seed_if_free(grid, start, &mut mask, &mut queue, sx, sy - 1);
    }
    proof {
        lemma_distinct_cells_bounded(*grid, queue@);
    }
    while qi < queue.len()
        invariant
            grid.wf(),
            bfs_inv(*grid, start, mask@, queue@),
            qi <= queue@.len() <= grid.width * grid.height,
            forall|j: int|
                0 <= j < qi ==> !qualifies(
                    *grid,
                    pol,
                    #[trigger] queue@[j].x as int,
                    queue@[j].y as int,
                ),
            forall|j: int, n: GridCell|
                0 <= j < qi && #[trigger] adjacent4(queue@[j], n) && grid.free_at(
                    n.x as int,
                    n.y as int,
                ) ==> seen(*grid, mask@, n),
            grid.in_bounds(start.x as int, start.y as int) ==> seen(*grid, mask@, start),
            !grid.in_bounds(start.x as int, start.y as int) ==> forall|n: GridCell|
                adjacent4(start, n) && grid.free_at(#[trigger] n.x as int, n.y as int) ==> seen(
                    *grid,
                    mask@,
                    n,
                ),
        decreases grid.width * grid.height - qi,
    {
        let cur = queue[qi];
        let cur_free = match cell_state_at(grid, cur.x as i64, cur.y as i64) {
            Option::Some(s) => s == CellState::Free,
            Option::None => false,
        };
        if cur_free && has_unknown_neighbor(grid, cur) && is_safe_cell(grid, cur, pol.safe_min)
            && (!pol.banded || is_wall_band_cell(grid, cur, pol.safe_min, pol.band_max)) {
            return Some(cur);
        }
        let ghost m0 = mask@;
        let cx = cur.x as i64;
        let cy = cur.y as i64;
        proof {
            if grid.free_at(cx + 1, cy as int) {
                lemma_reachable_step(*grid, start, cur, GridCell { x: (cx + 1) as i32, y: cy as i32 });
            }
        }
        seed_if_free(grid, start, &mut mask, &mut queue, cx + 1, cy);
        proof {
            if grid.free_at(cx - 1, cy as int) {
                lemma_reachable_step(*grid, start, cur, GridCell { x: (cx - 1) as i32, y: cy as i32 });
            }
        }
        seed_if_free(grid, start, &mut mask, &mut queue, cx - 1, cy);
        proof {
            if grid.free_at(cx as int, cy + 1) {
                lemma_reachable_step(*grid, start, cur, GridCell { x: cx as i32, y: (cy + 1) as i32 });
            }
        }
        seed_if_free(grid, start, &mut mask, &mut queue, cx, cy + 1);
        proof {
            if grid.free_at(cx as int, cy - 1) {
                lemma_reachable_step(*grid, start, cur, GridCell { x: cx as i32, y: (cy - 1) as i32 });
            }
        }
        seed_if_free(grid, start, &mut mask, &mut queue, cx, cy - 1);
        proof {
            lemma_distinct_cells_bounded(*grid, queue@);
            assert forall|n: GridCell|
                adjacent4(cur, n) && grid.free_at(#[trigger] n.x as int, n.y as int) implies seen(
                *grid,
                mask@,
                n,
            ) by {
                assert((n.x as int == cx + 1 && n.y as int == cy) || (n.x as int == cx - 1
                    && n.y as int == cy) || (n.x as int == cx && n.y as int == cy + 1) || (
                n.x as int == cx && n.y as int == cy - 1));
            }
        }
        qi = qi + 1;
    }
    proof {
        assert forall|c: GridCell| reachable_free(*grid, start, c) implies !qualifies(
            *grid,
            pol,
            #[trigger] c.x as int,
            c.y as int,
        ) by {
            if qualifies(*grid, pol, c.x as int, c.y as int) {
                let p = choose|p: Seq<GridCell>|
                    free_path(*grid, p) && p.first() == start && p.last() == c;
                assert forall|c2: GridCell, n: GridCell|
                    #[trigger] seen(*grid, mask@, c2) && #[trigger] adjacent4(c2, n)
                        && grid.free_at(n.x as int, n.y as int) implies seen(*grid, mask@, n) by {
                    let j = choose|j: int| 0 <= j < queue@.len() && queue@[j] == c2;
                }
                lemma_reachable_is_seen(*grid, start, mask@, p);
                let j = choose|j: int| 0 <= j < queue@.len() && queue@[j] == c;
                assert(!qualifies(*grid, pol, queue@[j].x as int, queue@[j].y as int));
            }
        }
    }
    None
}

} // verus!
