//! Safety-weighted A* search over the 4-connected graph of Free cells.
//!
//! Step cost is 1, with a fixed penalty for steps leaving the wall band
//! while the prefer-band policy is active; cells below the safety margin
//! are excluded entirely when avoid-unsafe is active.  The heuristic is
//! Manhattan distance.  The open list is kept as a vector from which the
//! entry with the least f-score is extracted each round; stale entries are
//! skipped by the g-score comparison, as in a lazy-deletion heap.

use vstd::prelude::*;

verus! {

use crate::distance::{band_cell, cell_state_at, is_safe_cell, is_wall_band_cell, manhattan,
    safe_cell};
use crate::frontier::adjacent4;
use crate::grid::{lemma_dim_product_bounded, lemma_flat_index_in_range, lemma_flat_index_injective,
    CellState, GridCell, OccupancyGrid};
use crate::params::COST_NON_BAND_PENALTY;

/// Cost and admissibility policy for a path search.
#[derive(Clone, Copy, PartialEq, Eq, Structural, Debug)]
pub struct PathPolicy {
    /// Exclude cells below the safety margin from the graph.
    pub avoid_unsafe: bool,
    /// Charge a penalty for steps landing outside the wall band.
    pub prefer_band: bool,
    pub safe_min: i32,
    pub band_max: i32,
}

/// Whether a step of the search may land on (x, y): the cell is Free, and
/// safe when the avoid-unsafe policy is active.
pub open spec fn step_ok(g: OccupancyGrid, pol: PathPolicy, x: int, y: int) -> bool {
    &&& g.free_at(x, y)
    &&& pol.avoid_unsafe ==> safe_cell(g, x, y, pol.safe_min as int)
}

/// The cost of a step landing on (x, y).
pub open spec fn spec_step_cost(g: OccupancyGrid, pol: PathPolicy, x: int, y: int) -> int {
    if pol.prefer_band && !band_cell(g, x, y, pol.safe_min as int, pol.band_max as int) {
        1 + COST_NON_BAND_PENALTY
    } else {
        1
    }
}

/// A path the search may return: it runs from `start` to `goal`, every
/// consecutive pair of cells is 4-adjacent, and every cell after the first
/// is admissible under the policy.
pub open spec fn valid_path(
    g: OccupancyGrid,
    pol: PathPolicy,
    p: Seq<GridCell>,
    start: GridCell,
    goal: GridCell,
) -> bool {
    &&& p.len() >= 1
    &&& p.first() == start
    &&& p.last() == goal
    &&& forall|i: int| 0 <= i < p.len() - 1 ==> adjacent4(#[trigger] p[i], p[i + 1])
    &&& forall|i: int| 1 <= i < p.len() ==> step_ok(g, pol, #[trigger] p[i].x as int, p[i].y as int)
}

/// Any path returned under the avoid-unsafe policy never passes through a
/// cell whose distance to the nearest Solid cell or grid edge is below the
/// safety margin; every consecutive pair of its cells is 4-adjacent, and
/// every cell after the start is Free.
pub proof fn lemma_path_respects_safety(
    g: OccupancyGrid,
    pol: PathPolicy,
    p: Seq<GridCell>,
    start: GridCell,
    goal: GridCell,
)
    requires
        valid_path(g, pol, p, start, goal),
        pol.avoid_unsafe,
    ensures
        forall|i: int|
            1 <= i < p.len() ==> crate::distance::dist_to_blocked(
                g,
                #[trigger] p[i].x as int,
                p[i].y as int,
                crate::params::DIST_SCAN_MAX as int,
            ) >= pol.safe_min,
        forall|i: int| 1 <= i < p.len() ==> g.free_at(#[trigger] p[i].x as int, p[i].y as int),
        forall|i: int| 0 <= i < p.len() - 1 ==> adjacent4(#[trigger] p[i], p[i + 1]),
{
    assert forall|i: int| 1 <= i < p.len() implies crate::distance::dist_to_blocked(
        g,
        #[trigger] p[i].x as int,
        p[i].y as int,
        crate::params::DIST_SCAN_MAX as int,
    ) >= pol.safe_min && g.free_at(p[i].x as int, p[i].y as int) by {
        assert(step_ok(g, pol, p[i].x as int, p[i].y as int));
    }
}

/// One entry of the open list.
#[derive(Clone, Copy, PartialEq, Eq, Structural, Debug)]
pub struct OpenNode {
    pub cell: GridCell,
    pub g: u64,
    pub f: u64,
}

/// Row-major index of a cell.
spec fn flat(g: OccupancyGrid, c: GridCell) -> int {
    c.y as int * g.width + c.x as int
}

/// Whether the search has discovered cell `c`.
spec fn disc(g: OccupancyGrid, gs: Seq<Option<u64>>, c: GridCell) -> bool {
    g.in_bounds(c.x as int, c.y as int) && gs[flat(g, c)] is Some
}

/// The current g-score of a discovered cell.
spec fn gval(g: OccupancyGrid, gs: Seq<Option<u64>>, c: GridCell) -> int {
    gs[flat(g, c)].unwrap() as int
}

/// How many cells are discovered.
spec fn count_some(s: Seq<Option<u64>>) -> int
    decreases s.len(),
{
    if s.len() == 0 {
        0
    } else {
        count_some(s.drop_last()) + (if s.last() is Some {
            1int
        } else {
            0int
        })
    }
}

proof fn lemma_count_some_bounds(s: Seq<Option<u64>>)
    ensures
        0 <= count_some(s) <= s.len(),
    decreases s.len(),
{
    if s.len() > 0 {
        lemma_count_some_bounds(s.drop_last());
    }
}

proof fn lemma_count_some_update(s: Seq<Option<u64>>, i: int, v: Option<u64>)
    requires
        0 <= i < s.len(),
    ensures
        count_some(s.update(i, v)) == count_some(s) - (if s[i] is Some {
            1int
        } else {
            0int
        }) + (if v is Some {
            1int
        } else {
            0int
        }),
    decreases s.len(),
{
    let t = s.update(i, v);
    if i == s.len() - 1 {
        assert(t.drop_last() =~= s.drop_last());
        assert(t.last() == v);
    } else {
        lemma_count_some_update(s.drop_last(), i, v);
        assert(t.drop_last() =~= s.drop_last().update(i, v));
        assert(t.last() == s.last());
    }
}

/// Termination potential of one cell's g-score: undiscovered cells carry
/// the cap, discovered cells their g-score, which only ever decreases.
spec fn pot(o: Option<u64>, cap: int) -> int {
    match o {
        Option::Some(g) => g as int,
        Option::None => cap,
    }
}

/// Total termination potential of the g-score table.
spec fn sum_pot(s: Seq<Option<u64>>, cap: int) -> int
    decreases s.len(),
{
    if s.len() == 0 {
        0
    } else {
        sum_pot(s.drop_last(), cap) + pot(s.last(), cap)
    }
}

proof fn lemma_sum_pot_nonneg(s: Seq<Option<u64>>, cap: int)
    requires
        cap >= 0,
    ensures
        sum_pot(s, cap) >= 0,
    decreases s.len(),
{
    if s.len() > 0 {
        lemma_sum_pot_nonneg(s.drop_last(), cap);
    }
}

proof fn lemma_sum_pot_update(s: Seq<Option<u64>>, cap: int, i: int, v: Option<u64>)
    requires
        0 <= i < s.len(),
    ensures
        sum_pot(s.update(i, v), cap) == sum_pot(s, cap) - pot(s[i], cap) + pot(v, cap),
    decreases s.len(),
{
    let t = s.update(i, v);
    if i == s.len() - 1 {
        assert(t.drop_last() =~= s.drop_last());
        assert(t.last() == v);
    } else {
        lemma_sum_pot_update(s.drop_last(), cap, i, v);
        assert(t.drop_last() =~= s.drop_last().update(i, v));
        assert(t.last() == s.last());
    }
}

/// The cap used as the undiscovered-cell potential: above every g-score
/// the search can assign.
spec fn pot_cap(g: OccupancyGrid) -> int {
    5 * (g.width * g.height) + 1
}

/// The search's working-state invariant over the g-score table, the
/// predecessor table, the open list and the discovered count.
spec fn astar_inv(
    g: OccupancyGrid,
    pol: PathPolicy,
    start: GridCell,
    gs: Seq<Option<u64>>,
    came: Seq<Option<GridCell>>,
    open: Seq<OpenNode>,
    nd: int,
) -> bool {
    &&& gs.len() == g.width * g.height
    &&& came.len() == g.width * g.height
    &&& nd == count_some(gs)
    &&& forall|c: GridCell| #[trigger]
        disc(g, gs, c) ==> {
            &&& 0 <= gval(g, gs, c) <= 5 * nd
            &&& (c == start || (step_ok(g, pol, c.x as int, c.y as int) && came[flat(g, c)]
                is Some))
        }
    &&& forall|c: GridCell|
        g.in_bounds(c.x as int, c.y as int) && #[trigger] came[flat(g, c)] is Some ==> {
            let p = came[flat(g, c)].unwrap();
            &&& disc(g, gs, c)
            &&& step_ok(g, pol, c.x as int, c.y as int)
            &&& adjacent4(p, c)
            &&& (p == start || (disc(g, gs, p) && gval(g, gs, p) < gval(g, gs, c)))
        }
    &&& forall|k: int|
        0 <= k < open.len() ==> disc(g, gs, (#[trigger] open[k]).cell) && gval(
            g,
            gs,
            open[k].cell,
        ) <= open[k].g as int <= 5 * nd
    &&& g.in_bounds(start.x as int, start.y as int) ==> gs[flat(g, start)] == Some(0u64) && came[
        flat(g, start)] is None
}

/// Whether some open-list entry names cell `c`.
spec fn has_entry(open: Seq<OpenNode>, c: GridCell) -> bool {
    exists|k: int| 0 <= k < open.len() && open[k].cell == c
}

/// Coverage: every discovered cell other than `except` either still has an
/// open entry or has had every admissible neighbor discovered.
spec fn open_covers(
    g: OccupancyGrid,
    pol: PathPolicy,
    gs: Seq<Option<u64>>,
    open: Seq<OpenNode>,
    except: Option<GridCell>,
) -> bool {
    forall|c: GridCell| #[trigger]
        disc(g, gs, c) && except != Some(c) ==> has_entry(open, c) || (forall|n: GridCell|
            #[trigger] adjacent4(c, n) && step_ok(g, pol, n.x as int, n.y as int) ==> disc(
                g,
                gs,
                n,
            ))
}

/// An in-bounds cell's flat index lies within the table.
proof fn lemma_flat_range(g: OccupancyGrid, c: GridCell)
    requires
        g.wf(),
        g.in_bounds(c.x as int, c.y as int),
    ensures
        0 <= flat(g, c) < g.width * g.height,
{
    lemma_flat_index_in_range(c.x as int, c.y as int, g.width as int, g.height as int);
}

/// Distinct in-bounds cells have distinct flat indices.
proof fn lemma_flat_distinct(g: OccupancyGrid, a: GridCell, b: GridCell)
    requires
        g.wf(),
        g.in_bounds(a.x as int, a.y as int),
        g.in_bounds(b.x as int, b.y as int),
        a != b,
    ensures
        flat(g, a) != flat(g, b),
{
    lemma_flat_index_injective(a.x as int, a.y as int, b.x as int, b.y as int, g.width as int);
}

/// Manhattan-distance heuristic between two cells.
fn heuristic(a: GridCell, b: GridCell) -> (h: u64)
    ensures
        h as int == manhattan(a.x as int, a.y as int, b.x as int, b.y as int),
        h <= 0x200000000,
{
    let dx: i64 = if a.x >= b.x {
        a.x as i64 - b.x as i64
    } else {
        b.x as i64 - a.x as i64
    };
    let dy: i64 = if a.y >= b.y {
        a.y as i64 - b.y as i64
    } else {
        b.y as i64 - a.y as i64
    };
    (dx + dy) as u64
}

/// The cost of a step landing on `n` under the policy.
fn step_cost(grid: &OccupancyGrid, pol: PathPolicy, n: GridCell) -> (s: u64)
    requires
        grid.wf(),
    ensures
        s as int == spec_step_cost(*grid, pol, n.x as int, n.y as int),
        1 <= s <= 5,
{
    if pol.prefer_band && !is_wall_band_cell(grid, n, pol.safe_min, pol.band_max) {
        1 + COST_NON_BAND_PENALTY
    } else {
        1
    }
}

/// Removes and returns the open-list entry with the least f-score.
fn pop_min(open: &mut Vec<OpenNode>) -> (e: OpenNode)
    requires
        old(open).len() >= 1,
    ensures
        final(open)@.len() == old(open)@.len() - 1,
        exists|j: int| 0 <= j < old(open)@.len() && old(open)@[j] == e,
        forall|k: int|
            0 <= k < final(open)@.len() ==> exists|j: int|
                0 <= j < old(open)@.len() && old(open)@[j] == #[trigger] final(open)@[k],
        forall|c: GridCell|
            c != e.cell && #[trigger] has_entry(old(open)@, c) ==> has_entry(final(open)@, c),
{
    let mut best: usize = 0;
    let mut i: usize = 1;
    while i < open.len()
        invariant
            open.len() >= 1,
            best < open.len(),
            i <= open.len(),
        decreases open.len() - i,
    {
        if open[i].f < open[best].f {
            best = i;
        }
        i = i + 1;
    }
    let ghost old_open = open@;
    let e = open.swap_remove(best);
    proof {
        assert forall|c: GridCell|
            c != e.cell && #[trigger] has_entry(old_open, c) implies has_entry(open@, c) by {
            let j = choose|j: int| 0 <= j < old_open.len() && old_open[j].cell == c;
            if j == old_open.len() - 1 {
                assert(open@[best as int].cell == c);
            } else {
                assert(open@[j].cell == c);
            }
        }
        assert forall|k: int| 0 <= k < open@.len() implies exists|j: int|
            0 <= j < old_open.len() && old_open[j] == #[trigger] open@[k] by {
            if k == best {
                assert(old_open[old_open.len() - 1] == open@[k]);
            } else {
                assert(old_open[k] == open@[k]);
            }
        }
    }
    e
}

/// Relaxes the edge from `pos` (with g-score `g`) onto the neighbor at
/// (x, y): when the neighbor is admissible and the tentative cost improves
/// on its recorded g-score, records the new score and predecessor and
/// appends an open entry.
#[verifier::rlimit(80)]
fn relax(
    grid: &OccupancyGrid,
    pol: PathPolicy,
    start: GridCell,
    goal: GridCell,
    gs: &mut Vec<Option<u64>>,
    came: &mut Vec<Option<GridCell>>,
    open: &mut Vec<OpenNode>,
    n_disc: &mut usize,
    pos: GridCell,
    g: u64,
    x: i64,
    y: i64,
)
    requires
        grid.wf(),
        astar_inv(*grid, pol, start, old(gs)@, old(came)@, old(open)@, *old(n_disc) as int),
        g as int <= 5 * (*old(n_disc) as int),
        manhattan(pos.x as int, pos.y as int, x as int, y as int) == 1,
        pos == start || (disc(*grid, old(gs)@, pos) && gval(*grid, old(gs)@, pos) <= g as int),
        pos == start && !grid.in_bounds(start.x as int, start.y as int) ==> g == 0,
    ensures
        astar_inv(*grid, pol, start, final(gs)@, final(came)@, final(open)@, *final(n_disc) as int),
        *final(n_disc) >= *old(n_disc),
        forall|c: GridCell| #[trigger]
            disc(*grid, old(gs)@, c) ==> disc(*grid, final(gs)@, c),
        step_ok(*grid, pol, x as int, y as int) ==> disc(
            *grid,
            final(gs)@,
            (GridCell { x: x as i32, y: y as i32 }),
        ),
        forall|c: GridCell|
            grid.in_bounds(c.x as int, c.y as int) && (c.x as int != x || c.y as int != y)
                ==> final(gs)@[flat(*grid, c)] == old(gs)@[flat(*grid, c)],
        forall|k: int| 0 <= k < old(open)@.len() ==> final(open)@[k] == old(open)@[k],
        final(open)@.len() >= old(open)@.len(),
        forall|c: GridCell| #[trigger] has_entry(old(open)@, c) ==> has_entry(final(open)@, c),
        forall|c: GridCell| #[trigger]
            disc(*grid, final(gs)@, c) ==> disc(*grid, old(gs)@, c) || has_entry(final(open)@, c),
        (final(gs)@ == old(gs)@ && final(open)@ == old(open)@ && final(came)@ == old(came)@) || (
        sum_pot(final(gs)@, pot_cap(*grid)) < sum_pot(old(gs)@, pot_cap(*grid)) && final(open)@.len()
            == old(open)@.len() + 1),
{
    let free = match cell_state_at(grid, x, y) {
        Option::Some(s) => s == CellState::Free,
        Option::None => false,
    };
    if !free {
        return ;
    }
    let n = GridCell { x: x as i32, y: y as i32 };
    if pol.avoid_unsafe && !is_safe_cell(grid, n, pol.safe_min) {
        return ;
    }
    proof {
        assert(step_ok(*grid, pol, x as int, y as int));
        lemma_count_some_bounds(gs@);
        lemma_dim_product_bounded(grid.width as int, grid.height as int);
    }
    let step = step_cost(grid, pol, n);
    let tentative = g + step;
    let fi = grid.index(n.x as usize, n.y as usize);
    proof {
        assert(n.x as int == x && n.y as int == y);
        assert(fi as int == flat(*grid, n));
        lemma_flat_range(*grid, n);
    }
    let better = match gs[fi] {
        Option::Some(old_g) => tentative < old_g,
        Option::None => true,
    };
    if better {
        let ghost gs0 = gs@;
        let ghost came0 = came@;
        let ghost open0 = open@;
        let ghost nd0 = *n_disc as int;
        let was_none = match gs[fi] {
            Option::Some(_) => false,
            Option::None => true,
        };
        gs[fi] = Some(tentative);
        came[fi] = Some(pos);
        if was_none {
            *n_disc = *n_disc + 1;
        }
        let h = heuristic(n, goal);
        open.push(OpenNode { cell: n, g: tentative, f: tentative + h });
        proof {
            let gr = *grid;
            let nd = *n_disc as int;
            assert(gs@ == gs0.update(fi as int, Some(tentative)));
            assert(came@ == came0.update(fi as int, Some(pos)));
            lemma_count_some_update(gs0, fi as int, Some(tentative));
            lemma_sum_pot_update(gs0, pot_cap(gr), fi as int, Some(tentative));
            lemma_count_some_bounds(gs0);
            assert(disc(gr, gs@, n) && gval(gr, gs@, n) == tentative as int);
            assert(n != start) by {
                if n == start && gr.in_bounds(start.x as int, start.y as int) {
                    lemma_flat_range(gr, start);
                    assert(gs0[flat(gr, start)] == Some(0u64));
                    assert(tentative >= 1);
                }
            }
            assert(pos == start || (disc(gr, gs@, pos) && gval(gr, gs@, pos)
                < tentative as int)) by {
                if pos != start {
                    lemma_flat_range(gr, pos);
                    lemma_flat_distinct(gr, pos, n);
                    assert(gval(gr, gs@, pos) == gval(gr, gs0, pos));
                    assert(gval(gr, gs0, pos) <= g as int);
                }
            }
            assert forall|c: GridCell| #[trigger] disc(gr, gs0, c) implies disc(gr, gs@, c)
                && gval(gr, gs@, c) <= gval(gr, gs0, c) by {
                lemma_flat_range(gr, c);
                if c != n {
                    lemma_flat_distinct(gr, c, n);
                } else {
                    assert(!was_none);
                    assert(tentative < gs0[fi as int].unwrap());
                }
            }
            assert forall|c: GridCell|
                gr.in_bounds(c.x as int, c.y as int) && (c.x as int != x || c.y as int
                    != y) implies gs@[flat(gr, c)] == gs0[flat(gr, c)] && came@[flat(gr, c)]
                == came0[flat(gr, c)] by {
                lemma_flat_range(gr, c);
                lemma_flat_distinct(gr, c, n);
            }
            assert forall|c: GridCell| #[trigger] disc(gr, gs@, c) implies {
                &&& 0 <= gval(gr, gs@, c) <= 5 * nd
                &&& (c == start || (step_ok(gr, pol, c.x as int, c.y as int) && came@[flat(gr, c)]
                    is Some))
            } by {
                lemma_flat_range(gr, c);
                if c == n {
                    if was_none {
                        assert(nd == nd0 + 1);
                    } else {
                        assert(disc(gr, gs0, n));
                        assert(gval(gr, gs0, n) <= 5 * nd0);
                        assert((tentative as int) < gval(gr, gs0, n));
                    }
                    assert(tentative as int <= 5 * nd);
                } else {
                    lemma_flat_distinct(gr, c, n);
                    assert(disc(gr, gs0, c));
                    assert(gval(gr, gs@, c) == gval(gr, gs0, c));
                    assert(0 <= gval(gr, gs0, c) <= 5 * nd0);
                }
            }
            assert forall|c: GridCell|
                gr.in_bounds(c.x as int, c.y as int) && #[trigger] came@[flat(gr, c)]
                    is Some implies {
                let p = came@[flat(gr, c)].unwrap();
                &&& disc(gr, gs@, c)
                &&& step_ok(gr, pol, c.x as int, c.y as int)
                &&& adjacent4(p, c)
                &&& (p == start || (disc(gr, gs@, p) && gval(gr, gs@, p) < gval(gr, gs@, c)))
            } by {
                lemma_flat_range(gr, c);
                if c == n {
                    assert(came@[flat(gr, c)].unwrap() == pos);
                    assert(adjacent4(pos, n));
                } else {
                    lemma_flat_distinct(gr, c, n);
                    assert(came0[flat(gr, c)] is Some);
                    let p = came0[flat(gr, c)].unwrap();
                    assert(disc(gr, gs0, c));
                    assert(gval(gr, gs@, c) == gval(gr, gs0, c));
                    if p != start {
                        lemma_flat_range(gr, p);
                        if p == n {
                            assert(disc(gr, gs0, n));
                            assert(!was_none);
                            assert(gval(gr, gs@, p) == tentative as int);
                            assert(tentative < gs0[fi as int].unwrap());
                            assert(gval(gr, gs0, p) < gval(gr, gs0, c));
                        } else {
                            lemma_flat_distinct(gr, p, n);
                        }
                    }
                }
            }
            assert forall|k: int| 0 <= k < open@.len() implies disc(
                gr,
                gs@,
                (#[trigger] open@[k]).cell,
            ) && gval(gr, gs@, open@[k].cell) <= open@[k].g as int <= 5 * nd by {
                if k < open@.len() - 1 {
                    let c = open0[k].cell;
                    assert(open@[k] == open0[k]);
                    assert(disc(gr, gs0, c));
                    lemma_flat_range(gr, c);
                    if c == n {
                        assert(gval(gr, gs@, n) == tentative as int);
                        assert(tentative as int <= gs0[fi as int].unwrap() as int);
                    } else {
                        lemma_flat_distinct(gr, c, n);
                        assert(gval(gr, gs@, c) == gval(gr, gs0, c));
                    }
                } else {
                    assert(open@[k] == OpenNode { cell: n, g: tentative, f: (tentative + h) as u64 });
                }
            }
            if gr.in_bounds(start.x as int, start.y as int) {
                lemma_flat_range(gr, start);
                lemma_flat_distinct(gr, start, n);
            }
            assert forall|c: GridCell| #[trigger] has_entry(open0, c) implies has_entry(
                open@,
                c,
            ) by {
                let k = choose|k: int| 0 <= k < open0.len() && open0[k].cell == c;
                assert(open@[k].cell == c);
            }
            assert forall|c: GridCell| #[trigger] disc(gr, gs@, c) implies disc(gr, gs0, c)
                || has_entry(open@, c) by {
                lemma_flat_range(gr, c);
                if c == n {
                    assert(open@[open0.len() as int].cell == n);
                } else {
                    lemma_flat_distinct(gr, c, n);
                }
            }
            if was_none {
                assert(pot(gs0[fi as int], pot_cap(gr)) == pot_cap(gr));
                assert(tentative as int <= 5 * nd);
                assert(5 * nd <= 5 * (gr.width * gr.height)) by {
                    lemma_count_some_bounds(gs@);
                }
                assert(sum_pot(gs@, pot_cap(gr)) < sum_pot(gs0, pot_cap(gr)));
            } else {
                assert(pot(gs0[fi as int], pot_cap(gr)) > tentative as int);
                assert(sum_pot(gs@, pot_cap(gr)) < sum_pot(gs0, pot_cap(gr)));
            }
        }
    }
}

/// Follows the predecessor chain back from `goal` and returns the chain
/// reversed: a valid path from `start` to `goal`.
fn build_path(
    grid: &OccupancyGrid,
    pol: PathPolicy,
    start: GridCell,
    goal: GridCell,
    gs: &Vec<Option<u64>>,
    came: &Vec<Option<GridCell>>,
) -> (r: Vec<GridCell>)
    requires
        grid.wf(),
        gs.len() == grid.width * grid.height,
        came.len() == grid.width * grid.height,
        disc(*grid, gs@, goal),
        forall|c: GridCell| #[trigger]
            disc(*grid, gs@, c) ==> c == start || came@[flat(*grid, c)] is Some,
        forall|c: GridCell|
            grid.in_bounds(c.x as int, c.y as int) && #[trigger] came@[flat(*grid, c)]
                is Some ==> {
                let p = came@[flat(*grid, c)].unwrap();
                &&& disc(*grid, gs@, c)
                &&& step_ok(*grid, pol, c.x as int, c.y as int)
                &&& adjacent4(p, c)
                &&& (p == start || (disc(*grid, gs@, p) && gval(*grid, gs@, p) < gval(
                    *grid,
                    gs@,
                    c,
                )))
            },
    ensures
        valid_path(*grid, pol, r@, start, goal),
{
    let mut rev: Vec<GridCell> = Vec::new();
    rev.push(goal);
    let mut cur = goal;
    while cur != start
        invariant
            grid.wf(),
            gs.len() == grid.width * grid.height,
            came.len() == grid.width * grid.height,
            forall|c: GridCell| #[trigger]
                disc(*grid, gs@, c) ==> c == start || came@[flat(*grid, c)] is Some,
            forall|c: GridCell|
                grid.in_bounds(c.x as int, c.y as int) && #[trigger] came@[flat(*grid, c)]
                    is Some ==> {
                    let p = came@[flat(*grid, c)].unwrap();
                    &&& disc(*grid, gs@, c)
                    &&& step_ok(*grid, pol, c.x as int, c.y as int)
                    &&& adjacent4(p, c)
                    &&& (p == start || (disc(*grid, gs@, p) && gval(*grid, gs@, p) < gval(
                        *grid,
                        gs@,
                        c,
                    )))
                },
            rev.len() >= 1,
            rev[0] == goal,
            rev[rev.len() - 1] == cur,
            cur == start || disc(*grid, gs@, cur),
            forall|i: int| 0 <= i < rev.len() - 1 ==> adjacent4(#[trigger] rev[i + 1], rev[i]),
            forall|i: int|
                0 <= i < rev.len() - 1 ==> step_ok(
                    *grid,
                    pol,
                    #[trigger] rev[i].x as int,
                    rev[i].y as int,
                ),
        decreases (if cur == start {
            0int
        } else {
            gval(*grid, gs@, cur) + 1
        }),
    {
        let fi = grid.index(cur.x as usize, cur.y as usize);
        let pr = came[fi].unwrap();
        rev.push(pr);
        cur = pr;
    }
    let mut path: Vec<GridCell> = Vec::new();
    let mut i: usize = rev.len();
    while i > 0
        invariant
            i <= rev.len(),
            path.len() == rev.len() - i,
            forall|k: int| 0 <= k < path.len() ==> path[k] == rev[rev.len() - 1 - k],
        decreases i,
    {
        i = i - 1;
        path.push(rev[i]);
    }
    proof {
        let p = path@;
        let rv = rev@;
        let l = rv.len() as int;
        assert(p.len() == l);
        assert(p.first() == rv[l - 1]);
        assert(p.last() == rv[0]);
        assert forall|k: int| 0 <= k < p.len() - 1 implies adjacent4(#[trigger] p[k], p[k + 1]) by {
            assert(p[k] == rv[l - 1 - k]);
            assert(p[k + 1] == rv[l - 1 - (k + 1)]);
            assert(adjacent4(rv[(l - 2 - k) + 1], rv[l - 2 - k]));
        }
        assert forall|k: int| 1 <= k < p.len() implies step_ok(
            *grid,
            pol,
            #[trigger] p[k].x as int,
            p[k].y as int,
        ) by {
            assert(p[k] == rv[l - 1 - k]);
        }
    }
    path
}

/// Expands the cell `pos`, freshly extracted from the open list with
/// g-score `gpop`: relaxes the edges onto its four neighbors, restoring the
/// search invariants with `pos` fully expanded.
#[verifier::rlimit(100)]
fn expand_cell(
    grid: &OccupancyGrid,
    pol: PathPolicy,
    start: GridCell,
    goal: GridCell,
    gs: &mut Vec<Option<u64>>,
    came: &mut Vec<Option<GridCell>>,
    open: &mut Vec<OpenNode>,
    n_disc: &mut usize,
    pos: GridCell,
    gpop: u64,
)
    requires
        grid.wf(),
        astar_inv(*grid, pol, start, old(gs)@, old(came)@, old(open)@, *old(n_disc) as int),
        open_covers(*grid, pol, old(gs)@, old(open)@, Some(pos)),
        disc(*grid, old(gs)@, goal) ==> has_entry(old(open)@, goal),
        gpop as int <= 5 * (*old(n_disc) as int),
        disc(*grid, old(gs)@, pos),
        gval(*grid, old(gs)@, pos) <= gpop as int,
    ensures
        astar_inv(*grid, pol, start, final(gs)@, final(came)@, final(open)@, *final(n_disc) as int),
        open_covers(*grid, pol, final(gs)@, final(open)@, None),
        disc(*grid, final(gs)@, goal) ==> has_entry(final(open)@, goal),
        forall|c: GridCell| #[trigger]
            disc(*grid, old(gs)@, c) ==> disc(*grid, final(gs)@, c),
        sum_pot(final(gs)@, pot_cap(*grid)) <= sum_pot(old(gs)@, pot_cap(*grid)),
        sum_pot(final(gs)@, pot_cap(*grid)) < sum_pot(old(gs)@, pot_cap(*grid)) || (final(gs)@
            == old(gs)@ && final(open)@ == old(open)@),
{
    let ghost gs_pre = gs@;
    let ghost open_0 = open@;
    let px = pos.x as i64;
    let py = pos.y as i64;
    relax(grid, pol, start, goal, gs, came, open, n_disc, pos, gpop, px + 1, py);
    let ghost gs_1 = gs@;
    let ghost open_1 = open@;
    relax(grid, pol, start, goal, gs, came, open, n_disc, pos, gpop, px - 1, py);
    let ghost gs_2 = gs@;
    let ghost open_2 = open@;
    relax(grid, pol, start, goal, gs, came, open, n_disc, pos, gpop, px, py + 1);
    let ghost gs_3 = gs@;
    let ghost open_3 = open@;
    relax(grid, pol, start, goal, gs, came, open, n_disc, pos, gpop, px, py - 1);
    proof {
        let gr = *grid;
        // pos is now fully expanded
        assert forall|n: GridCell|
            #[trigger] adjacent4(pos, n) && step_ok(gr, pol, n.x as int, n.y as int) implies disc(
            gr,
            gs@,
            n,
        ) by {
            assert((n.x as int == pos.x as int + 1 && n.y as int == pos.y as int) || (n.x as int
                == pos.x as int - 1 && n.y as int == pos.y as int) || (n.x as int == pos.x as int
                && n.y as int == pos.y as int + 1) || (n.x as int == pos.x as int && n.y as int
                == pos.y as int - 1));
        }
        // surviving entries still cover their cells, and newly discovered
        // cells got entries pushed by the relaxations
        assert forall|c: GridCell| #[trigger]
            disc(gr, gs@, c) && None::<GridCell> != Some(c) implies has_entry(open@, c) || (forall|
        n: GridCell|
            #[trigger] adjacent4(c, n) && step_ok(gr, pol, n.x as int, n.y as int) ==> disc(
                gr,
                gs@,
                n,
            )) by {
            assert(has_entry(open_0, c) ==> has_entry(open_1, c));
            assert(has_entry(open_1, c) ==> has_entry(open_2, c));
            assert(has_entry(open_2, c) ==> has_entry(open_3, c));
            assert(has_entry(open_3, c) ==> has_entry(open@, c));
            if c == pos {
            } else if disc(gr, gs_pre, c) {
                if !has_entry(open_0, c) {
                    assert(forall|n: GridCell|
                        #[trigger] adjacent4(c, n) && step_ok(gr, pol, n.x as int, n.y as int)
                            ==> disc(gr, gs_pre, n));
                }
            } else {
                assert(disc(gr, gs@, c) ==> disc(gr, gs_3, c) || has_entry(open@, c));
                assert(disc(gr, gs_3, c) ==> disc(gr, gs_2, c) || has_entry(open_3, c));
                assert(disc(gr, gs_2, c) ==> disc(gr, gs_1, c) || has_entry(open_2, c));
                assert(disc(gr, gs_1, c) ==> disc(gr, gs_pre, c) || has_entry(open_1, c));
            }
        }
        // the goal's pending entry survives or is newly pushed
        if disc(gr, gs@, goal) {
            assert(has_entry(open_0, goal) ==> has_entry(open_1, goal));
            assert(has_entry(open_1, goal) ==> has_entry(open_2, goal));
            assert(has_entry(open_2, goal) ==> has_entry(open_3, goal));
            assert(has_entry(open_3, goal) ==> has_entry(open@, goal));
            if !disc(gr, gs_pre, goal) {
                assert(disc(gr, gs@, goal) ==> disc(gr, gs_3, goal) || has_entry(open@, goal));
                assert(disc(gr, gs_3, goal) ==> disc(gr, gs_2, goal) || has_entry(open_3, goal));
                assert(disc(gr, gs_2, goal) ==> disc(gr, gs_1, goal) || has_entry(open_2, goal));
                assert(disc(gr, gs_1, goal) ==> disc(gr, gs_pre, goal) || has_entry(open_1, goal));
            }
        }
    }
}

/// A walk whose every step is admissible ends on a discovered cell, when
/// the discovered region is closed under admissible steps.
proof fn lemma_valid_walk_disc(
    g: OccupancyGrid,
    pol: PathPolicy,
    start: GridCell,
    gs: Seq<Option<u64>>,
    p: Seq<GridCell>,
)
    requires
        g.wf(),
        p.len() >= 2,
        p.first() == start,
        forall|i: int| 0 <= i < p.len() - 1 ==> adjacent4(#[trigger] p[i], p[i + 1]),
        forall|i: int| 1 <= i < p.len() ==> step_ok(g, pol, #[trigger] p[i].x as int, p[i].y as int),
        g.in_bounds(start.x as int, start.y as int) ==> disc(g, gs, start),
        !g.in_bounds(start.x as int, start.y as int) ==> forall|n: GridCell|
            adjacent4(start, n) && step_ok(g, pol, #[trigger] n.x as int, n.y as int) ==> disc(
                g,
                gs,
                n,
            ),
        forall|c: GridCell, n: GridCell|
            #[trigger] disc(g, gs, c) && #[trigger] adjacent4(c, n) && step_ok(
                g,
                pol,
                n.x as int,
                n.y as int,
            ) ==> disc(g, gs, n),
    ensures
        disc(g, gs, p.last()),
    decreases p.len(),
{
    if p.len() == 2 {
        assert(adjacent4(p[0], p[1]));
        if g.in_bounds(start.x as int, start.y as int) {
            assert(disc(g, gs, start));
        }
    } else {
        let q = p.drop_last();
        assert(forall|i: int| 0 <= i < q.len() - 1 ==> q[i] == #[trigger] p[i] && q[i + 1] == p[i
            + 1]);
        assert(forall|i: int| 1 <= i < q.len() ==> q[i] == #[trigger] p[i]);
        lemma_valid_walk_disc(g, pol, start, gs, q);
        assert(q.last() == p[p.len() - 2]);
        assert(adjacent4(p[p.len() - 2], p[p.len() - 1]));
    }
}

/// Safety-weighted A* search from `start` to `goal`.  Returns the full
/// inclusive cell sequence of an admissible path, or None exactly when no
/// admissible path exists.
#[verifier::rlimit(100)]
pub fn find_path(grid: &OccupancyGrid, start: GridCell, goal: GridCell, pol: PathPolicy) -> (r:
    Option<Vec<GridCell>>)
    requires
        grid.wf(),
    ensures
        r matches Some(p) ==> valid_path(*grid, pol, p@, start, goal),
        r is None ==> !(exists|p: Seq<GridCell>| valid_path(*grid, pol, p, start, goal)),
{
    if start.x == goal.x && start.y == goal.y {
        let mut p: Vec<GridCell> = Vec::new();
        p.push(start);
        proof {
            assert(p@.first() == start && p@.last() == goal);
        }
        return Some(p);
    }
    let w = grid.width;
    let h = grid.height;
    proof {
        lemma_dim_product_bounded(w as int, h as int);
    }
    let n_cells = w * h;
    let mut gs: Vec<Option<u64>> = Vec::new();
    let mut came: Vec<Option<GridCell>> = Vec::new();
    let mut i: usize = 0;
    while i < n_cells
        invariant
            i <= n_cells,
            gs.len() == i,
            came.len() == i,
            count_some(gs@) == 0,
            forall|k: int| 0 <= k < i ==> gs@[k] is None,
            forall|k: int| 0 <= k < i ==> came@[k] is None,
        decreases n_cells - i,
    {
        let ghost gs0 = gs@;
        gs.push(None);
        came.push(None);
        proof {
            assert(gs@.drop_last() =~= gs0);
        }
        i = i + 1;
    }
    let mut open: Vec<OpenNode> = Vec::new();
    let mut n_disc: usize = 0;
    proof {
        assert forall|c: GridCell| #[trigger] disc(*grid, gs@, c) implies false by {
            lemma_flat_index_in_range(c.x as int, c.y as int, w as int, h as int);
        }
        assert forall|c: GridCell|
            grid.in_bounds(c.x as int, c.y as int) implies came@[flat(*grid, c)] is None by {
            lemma_flat_index_in_range(c.x as int, c.y as int, w as int, h as int);
        }
    }
    let start_in = start.x >= 0 && start.y >= 0 && (start.x as usize) < w && (start.y as usize)
        < h;
    if start_in {
        let fi = grid.index(start.x as usize, start.y as usize);
        let ghost gs0 = gs@;
        gs[fi] = Some(0u64);
        n_disc = 1;
        let hh = heuristic(start, goal);
        open.push(OpenNode { cell: start, g: 0, f: hh });
        proof {
            lemma_count_some_update(gs0, fi as int, Some(0u64));
            assert(fi as int == flat(*grid, start));
            assert forall|c: GridCell| #[trigger] disc(*grid, gs@, c) implies c == start by {
                lemma_flat_index_in_range(c.x as int, c.y as int, w as int, h as int);
                if c != start {
                    lemma_flat_index_injective(
                        c.x as int,
                        c.y as int,
                        start.x as int,
                        start.y as int,
                        w as int,
                    );
                }
            }
            assert forall|c: GridCell| #[trigger] disc(*grid, gs@, c) implies has_entry(
                open@,
                c,
            ) by {
                assert(open@[0].cell == start);
            }
        }
    } else {
        let sx = start.x as i64;
        let sy = start.y as i64;
        let ghost gs_s0 = gs@;
        relax(grid, pol, start, goal, &mut gs, &mut came, &mut open, &mut n_disc, start, 0, sx + 1, sy);
        let ghost gs_s1 = gs@;
        let ghost open_s1 = open@;
        relax(grid, pol, start, goal, &mut gs, &mut came, &mut open, &mut n_disc, start, 0, sx - 1, sy);
        let ghost gs_s2 = gs@;
        let ghost open_s2 = open@;
        relax(grid, pol, start, goal, &mut gs, &mut came, &mut open, &mut n_disc, start, 0, sx, sy + 1);
        let ghost gs_s3 = gs@;
        let ghost open_s3 = open@;
        relax(grid, pol, start, goal, &mut gs, &mut came, &mut open, &mut n_disc, start, 0, sx, sy - 1);
        proof {
            assert forall|c: GridCell| #[trigger] disc(*grid, gs@, c) implies has_entry(
                open@,
                c,
            ) by {
                assert(disc(*grid, gs@, c) ==> disc(*grid, gs_s3, c) || has_entry(open@, c));
                assert(disc(*grid, gs_s3, c) ==> disc(*grid, gs_s2, c) || has_entry(open_s3, c));
                assert(disc(*grid, gs_s2, c) ==> disc(*grid, gs_s1, c) || has_entry(open_s2, c));
                assert(disc(*grid, gs_s1, c) ==> disc(*grid, gs_s0, c) || has_entry(open_s1, c));
                assert(!disc(*grid, gs_s0, c));
                assert(has_entry(open_s1, c) ==> has_entry(open_s2, c));
                assert(has_entry(open_s2, c) ==> has_entry(open_s3, c));
                assert(has_entry(open_s3, c) ==> has_entry(open@, c));
            }
        }
    }
    proof {
        assert forall|c: GridCell| #[trigger]
            disc(*grid, gs@, c) && None::<GridCell> != Some(c) implies has_entry(open@, c) || (
        forall|n: GridCell|
            #[trigger] adjacent4(c, n) && step_ok(*grid, pol, n.x as int, n.y as int) ==> disc(
                *grid,
                gs@,
                n,
            )) by {
            assert(has_entry(open@, c));
        }
    }
    while open.len() > 0
        invariant
            grid.wf(),
            start != goal,
            astar_inv(*grid, pol, start, gs@, came@, open@, n_disc as int),
            open_covers(*grid, pol, gs@, open@, None),
            disc(*grid, gs@, goal) ==> has_entry(open@, goal),
            !grid.in_bounds(start.x as int, start.y as int) ==> forall|n: GridCell|
                adjacent4(start, n) && step_ok(*grid, pol, #[trigger] n.x as int, n.y as int)
                    ==> disc(*grid, gs@, n),
        decreases sum_pot(gs@, pot_cap(*grid)), open@.len(),
    {
        proof {
            lemma_sum_pot_nonneg(gs@, pot_cap(*grid));
        }
        let ghost gs_pre = gs@;
        let ghost open_pre = open@;
        let e = pop_min(&mut open);
        if e.cell.x == goal.x && e.cell.y == goal.y {
            proof {
                assert(disc(*grid, gs@, e.cell));
            }
            let p = build_path(grid, pol, start, goal, &gs, &came);
            return Some(p);
        }
        proof {
            let gr = *grid;
            assert(goal != e.cell);
            assert forall|c: GridCell| #[trigger]
                disc(gr, gs@, c) && Some(e.cell) != Some(c) implies has_entry(open@, c) || (
            forall|n: GridCell|
                #[trigger] adjacent4(c, n) && step_ok(gr, pol, n.x as int, n.y as int) ==> disc(
                    gr,
                    gs@,
                    n,
                )) by {
                if has_entry(open_pre, c) {
                    assert(has_entry(open@, c));
                }
            }
            if disc(gr, gs@, goal) {
                assert(has_entry(open_pre, goal));
            }
        }
        let ghost open_popped = open@;
        expand_cell(grid, pol, start, goal, &mut gs, &mut came, &mut open, &mut n_disc, e.cell, e.g);
        proof {
            lemma_sum_pot_nonneg(gs@, pot_cap(*grid));
            assert(sum_pot(gs@, pot_cap(*grid)) < sum_pot(gs_pre, pot_cap(*grid)) || (sum_pot(
                gs@,
                pot_cap(*grid),
            ) == sum_pot(gs_pre, pot_cap(*grid)) && open@.len() < open_pre.len())) by {
                if !(sum_pot(gs@, pot_cap(*grid)) < sum_pot(gs_pre, pot_cap(*grid))) {
                    assert(gs@ == gs_pre);
                    assert(open@ == open_popped);
                }
            }
        }
    }
    proof {
        if exists|p: Seq<GridCell>| valid_path(*grid, pol, p, start, goal) {
            let p = choose|p: Seq<GridCell>| valid_path(*grid, pol, p, start, goal);
            assert(p.len() >= 2) by {
                if p.len() == 1 {
                    assert(p.first() == p.last());
                }
            }
            assert forall|c: GridCell, n: GridCell|
                #[trigger] disc(*grid, gs@, c) && #[trigger] adjacent4(c, n) && step_ok(
                    *grid,
                    pol,
                    n.x as int,
                    n.y as int,
                ) implies disc(*grid, gs@, n) by {
                assert(!has_entry(open@, c));
            }
            lemma_valid_walk_disc(*grid, pol, start, gs@, p);
            assert(disc(*grid, gs@, goal));
            let k = choose|k: int| 0 <= k < open@.len() && open@[k].cell == goal;
            assert(false);
        }
    }
    None
}

} // verus!
