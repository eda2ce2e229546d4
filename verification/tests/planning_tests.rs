use pick_e::distance::distance_to_solid_or_edge;
use pick_e::frontier::{find_nearest_frontier, FrontierPolicy};
use pick_e::grid::{CellState, GridCell, OccupancyGrid, WorldPos};
use pick_e::mode::{AutoNavMode, Phase};
use pick_e::pathfind::{find_path, PathPolicy};
use pick_e::planner::{plan_frontier_path, reduce_to_waypoints};

fn open_grid(w: usize, h: usize) -> OccupancyGrid {
    let mut g = OccupancyGrid::new(w, h, 100, WorldPos { x: 0, y: 0 });
    for y in 0..h {
        for x in 0..w {
            g.set(x, y, CellState::Free);
        }
    }
    g
}

/// A 10x10 grid, all Unknown except a 3x3 Free island over (4,4)-(6,6).
fn island_grid() -> OccupancyGrid {
    let mut g = OccupancyGrid::new(10, 10, 100, WorldPos { x: 0, y: 0 });
    for y in 4..=6 {
        for x in 4..=6 {
            g.set(x, y, CellState::Free);
        }
    }
    g
}

fn any_policy() -> FrontierPolicy {
    FrontierPolicy { safe_min: 0, band_max: 4, banded: false }
}

#[test]
fn frontier_on_island_boundary() {
    let g = island_grid();
    let r = find_nearest_frontier(&g, GridCell { x: 5, y: 5 }, any_policy());
    let c = r.expect("an island boundary frontier cell must be found");
    // one of the eight boundary cells of the island, never its center
    assert!(4 <= c.x && c.x <= 6 && 4 <= c.y && c.y <= 6);
    assert!(!(c.x == 5 && c.y == 5));
    // each boundary cell is Free and adjacent to an Unknown cell
    assert_eq!(g.get_cell(c), Some(CellState::Free));
    let unknown_neighbor = [(1, 0), (-1, 0), (0, 1), (0, -1)].iter().any(|&(dx, dy)| {
        g.get_cell(GridCell { x: c.x + dx, y: c.y + dy }) == Some(CellState::Unknown)
    });
    assert!(unknown_neighbor);
}

#[test]
fn no_frontier_in_fully_known_grid() {
    let g = open_grid(8, 8);
    let r = find_nearest_frontier(&g, GridCell { x: 4, y: 4 }, any_policy());
    assert!(r.is_none());
}

#[test]
fn frontier_ignores_unreachable_regions() {
    // a Solid wall at x=4 separates the agent from the Unknown east side
    let mut g = OccupancyGrid::new(9, 9, 100, WorldPos { x: 0, y: 0 });
    for y in 0..9 {
        for x in 0..4 {
            g.set(x, y, CellState::Free);
        }
        g.set(4, y, CellState::Solid);
    }
    let r = find_nearest_frontier(&g, GridCell { x: 1, y: 4 }, any_policy());
    // the Free side touches no Unknown cell: its only Unknown neighbors
    // lie beyond the wall
    assert!(r.is_none());
}

#[test]
fn astar_straight_corridor() {
    let g = open_grid(10, 1);
    let pol = PathPolicy { avoid_unsafe: false, prefer_band: false, safe_min: 2, band_max: 4 };
    let p = find_path(&g, GridCell { x: 0, y: 0 }, GridCell { x: 9, y: 0 }, pol)
        .expect("the corridor is open");
    assert_eq!(p.len(), 10);
    for (i, c) in p.iter().enumerate() {
        assert_eq!(*c, GridCell { x: i as i32, y: 0 });
    }
}

#[test]
fn astar_trivial_when_start_is_goal() {
    let g = island_grid();
    let pol = PathPolicy { avoid_unsafe: true, prefer_band: false, safe_min: 2, band_max: 4 };
    let p = find_path(&g, GridCell { x: 5, y: 5 }, GridCell { x: 5, y: 5 }, pol).unwrap();
    assert_eq!(p, vec![GridCell { x: 5, y: 5 }]);
}

#[test]
fn astar_no_path_across_solid_boundary() {
    // a 10x10 grid split by an unbroken Solid wall, with an isolated 2x2
    // Free pocket on the far side
    let mut g = OccupancyGrid::new(10, 10, 100, WorldPos { x: 0, y: 0 });
    for y in 0..10 {
        for x in 0..6 {
            g.set(x, y, CellState::Free);
        }
        g.set(6, y, CellState::Solid);
    }
    g.set(8, 8, CellState::Free);
    g.set(9, 8, CellState::Free);
    g.set(8, 9, CellState::Free);
    g.set(9, 9, CellState::Free);
    let pol = PathPolicy { avoid_unsafe: false, prefer_band: false, safe_min: 2, band_max: 4 };
    let r = find_path(&g, GridCell { x: 2, y: 2 }, GridCell { x: 8, y: 8 }, pol);
    assert!(r.is_none());
}

#[test]
fn astar_avoids_unsafe_cells() {
    // a wide hall: the direct route hugs the south edge, but every cell of
    // a returned path must keep the safety margin from edges and walls
    let g = open_grid(20, 12);
    let pol = PathPolicy { avoid_unsafe: true, prefer_band: false, safe_min: 2, band_max: 4 };
    let p = find_path(&g, GridCell { x: 2, y: 2 }, GridCell { x: 17, y: 2 }, pol)
        .expect("a safe route exists through the middle");
    assert_eq!(p[0], GridCell { x: 2, y: 2 });
    assert_eq!(*p.last().unwrap(), GridCell { x: 17, y: 2 });
    for w in p.windows(2) {
        let d = (w[0].x - w[1].x).abs() + (w[0].y - w[1].y).abs();
        assert_eq!(d, 1);
    }
    for (i, c) in p.iter().enumerate() {
        if i > 0 {
            assert!(distance_to_solid_or_edge(&g, *c, 6) >= 2);
            assert_eq!(g.get_cell(*c), Some(CellState::Free));
        }
    }
}

#[test]
fn astar_cost_is_optimal_in_open_hall() {
    // with unit step costs an optimal route has Manhattan-distance steps;
    // tie-broken routes may differ, the cost may not
    let g = open_grid(20, 12);
    let pol = PathPolicy { avoid_unsafe: true, prefer_band: false, safe_min: 2, band_max: 4 };
    let p = find_path(&g, GridCell { x: 2, y: 2 }, GridCell { x: 17, y: 2 }, pol).unwrap();
    assert_eq!(p.len(), 16);
    let q = find_path(&g, GridCell { x: 2, y: 2 }, GridCell { x: 17, y: 9 }, pol).unwrap();
    assert_eq!(q.len(), 23);
}

#[test]
fn astar_unreachable_unsafe_goal() {
    // the goal itself is within the margin of the edge, so no admissible
    // path can end there
    let g = open_grid(20, 12);
    let pol = PathPolicy { avoid_unsafe: true, prefer_band: false, safe_min: 2, band_max: 4 };
    let r = find_path(&g, GridCell { x: 5, y: 5 }, GridCell { x: 19, y: 5 }, pol);
    assert!(r.is_none());
}

#[test]
fn waypoint_reduction_keeps_corners() {
    let path = vec![
        GridCell { x: 0, y: 0 },
        GridCell { x: 1, y: 0 },
        GridCell { x: 2, y: 0 },
        GridCell { x: 2, y: 1 },
        GridCell { x: 2, y: 2 },
        GridCell { x: 3, y: 2 },
    ];
    let w = reduce_to_waypoints(&path);
    assert_eq!(
        w,
        vec![
            GridCell { x: 0, y: 0 },
            GridCell { x: 2, y: 0 },
            GridCell { x: 2, y: 2 },
            GridCell { x: 3, y: 2 },
        ]
    );
}

#[test]
fn waypoint_reduction_keeps_short_paths_whole() {
    let path = vec![GridCell { x: 3, y: 4 }, GridCell { x: 4, y: 4 }];
    assert_eq!(reduce_to_waypoints(&path), path);
    let single = vec![GridCell { x: 3, y: 4 }];
    assert_eq!(reduce_to_waypoints(&single), single);
}

#[test]
fn planner_reaches_island_frontier() {
    let g = island_grid();
    let mut mode = AutoNavMode::default();
    let plan = plan_frontier_path(&g, &mut mode, GridCell { x: 5, y: 5 })
        .expect("the island boundary is explorable");
    let t = plan.target;
    assert!(4 <= t.x && t.x <= 6 && 4 <= t.y && t.y <= 6);
    assert!(!(t.x == 5 && t.y == 5));
    assert_eq!(plan.cells[0], GridCell { x: 5, y: 5 });
    assert_eq!(*plan.cells.last().unwrap(), t);
    for w in plan.cells.windows(2) {
        let d = (w[0].x - w[1].x).abs() + (w[0].y - w[1].y).abs();
        assert_eq!(d, 1);
    }
    // the outer island cells lie four cells from the grid edge, inside the
    // wall band, so the sweep keeps its phase
    assert_eq!(mode.phase, Phase::WallSweep);
    assert!(distance_to_solid_or_edge(&g, t, 6) <= 4);
}

#[test]
fn planner_switches_to_fill_away_from_walls() {
    // a Free island in the middle of a large grid: its frontier lies far
    // outside the wall band, so WallSweep flips to Fill and still plans
    let mut g = OccupancyGrid::new(30, 30, 100, WorldPos { x: 0, y: 0 });
    for y in 14..=16 {
        for x in 14..=16 {
            g.set(x, y, CellState::Free);
        }
    }
    let mut mode = AutoNavMode::default();
    let plan = plan_frontier_path(&g, &mut mode, GridCell { x: 15, y: 15 })
        .expect("the island boundary is explorable");
    assert_eq!(mode.phase, Phase::Fill);
    let t = plan.target;
    assert!(14 <= t.x && t.x <= 16 && 14 <= t.y && t.y <= 16);
    assert!(!(t.x == 15 && t.y == 15));
}

#[test]
fn planner_keeps_sweeping_near_walls() {
    // Free corridor along the west side, Unknown further east: the
    // frontier cells sit in the wall band, so WallSweep keeps its phase
    let mut g = OccupancyGrid::new(20, 20, 100, WorldPos { x: 0, y: 0 });
    for y in 0..20 {
        for x in 0..4 {
            g.set(x, y, CellState::Free);
        }
    }
    let mut mode = AutoNavMode::default();
    let plan = plan_frontier_path(&g, &mut mode, GridCell { x: 3, y: 10 });
    assert_eq!(mode.phase, Phase::WallSweep);
    assert!(plan.is_some());
}

#[test]
fn planner_idles_when_disabled() {
    let g = island_grid();
    let mut mode = AutoNavMode { enabled: false, phase: Phase::WallSweep };
    let r = plan_frontier_path(&g, &mut mode, GridCell { x: 5, y: 5 });
    assert!(r.is_none());
    assert_eq!(mode.phase, Phase::WallSweep);
}
