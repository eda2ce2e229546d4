use pick_e::cmd_vel::CmdVel;
use pick_e::distance::{distance_to_solid_or_edge, has_unknown_neighbor, is_safe_cell, is_wall_band_cell};
use pick_e::grid::{CellState, GridCell, OccupancyGrid, WorldPos};
use pick_e::mode::{toggle_enabled, toggle_phase, AutoNavMode, Phase};
use pick_e::sensor::sweep_angles;
use pick_e::update::integrate_beam;
use pick_e::visited::{unvisited_count_in_radius, VisitedGrid};

fn open_grid(w: usize, h: usize) -> OccupancyGrid {
    let mut g = OccupancyGrid::new(w, h, 100, WorldPos { x: 0, y: 0 });
    for y in 0..h {
        for x in 0..w {
            g.set(x, y, CellState::Free);
        }
    }
    g
}

#[test]
fn cell_world_round_trip() {
    let g = OccupancyGrid::new(10, 10, 100, WorldPos { x: -500, y: -500 });
    for y in 0..10 {
        for x in 0..10 {
            let c = GridCell { x, y };
            let w = g.cell_to_world(c);
            assert_eq!(g.world_to_cell(w), Some(c));
        }
    }
}

#[test]
fn cell_world_round_trip_odd_resolution() {
    let g = OccupancyGrid::new(7, 5, 7, WorldPos { x: -13, y: 29 });
    for y in 0..5 {
        for x in 0..7 {
            let c = GridCell { x, y };
            assert_eq!(g.world_to_cell(g.cell_to_world(c)), Some(c));
        }
    }
    assert_eq!(g.cell_to_world(GridCell { x: 0, y: 0 }), WorldPos { x: -10, y: 32 });
}

#[test]
fn cell_to_world_center_value() {
    let g = OccupancyGrid::new(10, 10, 100, WorldPos { x: -500, y: -500 });
    let w = g.cell_to_world(GridCell { x: 2, y: 3 });
    assert_eq!(w, WorldPos { x: -250, y: -150 });
}

#[test]
fn world_to_cell_outside_is_none() {
    let g = OccupancyGrid::new(10, 10, 100, WorldPos { x: 0, y: 0 });
    assert_eq!(g.world_to_cell(WorldPos { x: -1, y: 50 }), None);
    assert_eq!(g.world_to_cell(WorldPos { x: 1000, y: 50 }), None);
    assert_eq!(g.world_to_cell(WorldPos { x: 0, y: 0 }), Some(GridCell { x: 0, y: 0 }));
    assert_eq!(g.world_to_cell(WorldPos { x: 999, y: 999 }), Some(GridCell { x: 9, y: 9 }));
}

#[test]
fn new_grid_is_unknown() {
    let g = OccupancyGrid::new(4, 3, 50, WorldPos { x: 0, y: 0 });
    for y in 0..3 {
        for x in 0..4 {
            assert_eq!(g.get(x, y), Some(CellState::Unknown));
        }
    }
    assert_eq!(g.get(4, 0), None);
    assert_eq!(g.get(0, 3), None);
}

#[test]
fn set_and_get_cell() {
    let mut g = OccupancyGrid::new(5, 5, 100, WorldPos { x: 0, y: 0 });
    g.set(2, 1, CellState::Solid);
    g.set(9, 9, CellState::Solid);
    assert_eq!(g.get_cell(GridCell { x: 2, y: 1 }), Some(CellState::Solid));
    assert_eq!(g.get_cell(GridCell { x: -1, y: 0 }), None);
    assert_eq!(g.get_cell(GridCell { x: 0, y: 0 }), Some(CellState::Unknown));
}

#[test]
fn iter_lists_cells_row_major() {
    let mut g = OccupancyGrid::new(3, 2, 100, WorldPos { x: 0, y: 0 });
    g.set(2, 1, CellState::Solid);
    let all = g.iter();
    assert_eq!(all.len(), 6);
    assert_eq!(all[0], (GridCell { x: 0, y: 0 }, CellState::Unknown));
    assert_eq!(all[5], (GridCell { x: 2, y: 1 }, CellState::Solid));
}

#[test]
fn distance_zero_exactly_for_solid_or_outside() {
    let mut g = open_grid(9, 9);
    g.set(4, 1, CellState::Solid);
    assert_eq!(distance_to_solid_or_edge(&g, GridCell { x: 4, y: 1 }, 6), 0);
    assert_eq!(distance_to_solid_or_edge(&g, GridCell { x: -3, y: 2 }, 6), 0);
    assert_eq!(distance_to_solid_or_edge(&g, GridCell { x: 9, y: 0 }, 6), 0);
    assert!(distance_to_solid_or_edge(&g, GridCell { x: 4, y: 4 }, 6) > 0);
}

#[test]
fn distance_finds_nearest_ring() {
    let mut g = open_grid(9, 9);
    g.set(4, 1, CellState::Solid);
    // from (4,4): the Solid cell is 3 rings out, nearer than any edge
    assert_eq!(distance_to_solid_or_edge(&g, GridCell { x: 4, y: 4 }, 6), 3);
    // from (4,3) it is 2 rings out
    assert_eq!(distance_to_solid_or_edge(&g, GridCell { x: 4, y: 3 }, 6), 2);
    // edges count as obstacles: (1,4) is 2 rings from the left edge
    assert_eq!(distance_to_solid_or_edge(&g, GridCell { x: 1, y: 4 }, 6), 2);
}

#[test]
fn distance_caps_at_scan_radius() {
    let g = open_grid(20, 20);
    assert_eq!(distance_to_solid_or_edge(&g, GridCell { x: 10, y: 10 }, 6), 7);
}

#[test]
fn safety_and_wall_band() {
    let g = open_grid(20, 20);
    // (1,10) is one ring from the left edge
    assert_eq!(distance_to_solid_or_edge(&g, GridCell { x: 1, y: 10 }, 6), 2);
    assert!(is_safe_cell(&g, GridCell { x: 1, y: 10 }, 2));
    assert!(!is_safe_cell(&g, GridCell { x: 0, y: 10 }, 2));
    assert!(is_wall_band_cell(&g, GridCell { x: 1, y: 10 }, 2, 4));
    assert!(is_wall_band_cell(&g, GridCell { x: 3, y: 10 }, 2, 4));
    assert!(!is_wall_band_cell(&g, GridCell { x: 10, y: 10 }, 2, 4));
}

#[test]
fn unknown_neighbor_detection() {
    let mut g = open_grid(5, 5);
    g.set(3, 2, CellState::Unknown);
    assert!(has_unknown_neighbor(&g, GridCell { x: 2, y: 2 }));
    assert!(has_unknown_neighbor(&g, GridCell { x: 3, y: 1 }));
    assert!(!has_unknown_neighbor(&g, GridCell { x: 0, y: 0 }));
}

#[test]
fn integrate_beam_marks_free_and_solid() {
    let mut g = OccupancyGrid::new(10, 10, 100, WorldPos { x: 0, y: 0 });
    let samples = vec![
        WorldPos { x: 50, y: 50 },
        WorldPos { x: 150, y: 50 },
        WorldPos { x: 250, y: 50 },
    ];
    integrate_beam(&mut g, &samples, true);
    assert_eq!(g.get(0, 0), Some(CellState::Free));
    assert_eq!(g.get(1, 0), Some(CellState::Free));
    assert_eq!(g.get(2, 0), Some(CellState::Solid));
    assert_eq!(g.get(3, 0), Some(CellState::Unknown));
}

#[test]
fn integrate_beam_max_range_is_not_an_obstacle() {
    let mut g = OccupancyGrid::new(10, 10, 100, WorldPos { x: 0, y: 0 });
    let samples = vec![
        WorldPos { x: 50, y: 50 },
        WorldPos { x: 150, y: 50 },
        WorldPos { x: 250, y: 50 },
    ];
    integrate_beam(&mut g, &samples, false);
    assert_eq!(g.get(0, 0), Some(CellState::Free));
    assert_eq!(g.get(1, 0), Some(CellState::Free));
    assert_eq!(g.get(2, 0), Some(CellState::Unknown));
}

#[test]
fn integrate_beam_drops_outside_samples() {
    let mut g = OccupancyGrid::new(4, 4, 100, WorldPos { x: 0, y: 0 });
    let samples = vec![
        WorldPos { x: 50, y: 50 },
        WorldPos { x: 450, y: 50 },
        WorldPos { x: 850, y: 50 },
    ];
    integrate_beam(&mut g, &samples, true);
    assert_eq!(g.get(0, 0), Some(CellState::Free));
    for y in 0..4 {
        for x in 1..4 {
            assert_eq!(g.get(x, y), Some(CellState::Unknown));
        }
    }
}

#[test]
fn sweep_angles_wrap_and_count() {
    let (angles, cursor) = sweep_angles(350000, 20000, 2000);
    assert_eq!(cursor, 10000);
    assert_eq!(angles.len(), 10);
    assert_eq!(angles[0], 350000);
    assert_eq!(angles[4], 358000);
    assert_eq!(angles[5], 0);
    assert_eq!(angles[9], 8000);
}

#[test]
fn sweep_emission_caps_at_one_turn() {
    let (angles, cursor) = sweep_angles(0, 720000, 2000);
    assert_eq!(angles.len(), 180);
    assert_eq!(cursor, 0);
    let (angles2, cursor2) = sweep_angles(100, 0, 2000);
    assert_eq!(angles2.len(), 0);
    assert_eq!(cursor2, 100);
}

#[test]
fn visited_grid_marks() {
    let mut v = VisitedGrid::new(6, 6);
    assert!(!v.is_marked(GridCell { x: 2, y: 2 }));
    v.mark(GridCell { x: 2, y: 2 });
    v.mark(GridCell { x: -1, y: 4 });
    assert!(v.is_marked(GridCell { x: 2, y: 2 }));
    assert!(!v.is_marked(GridCell { x: -1, y: 4 }));
    assert!(!v.is_marked(GridCell { x: 4, y: 2 }));
}

#[test]
fn unvisited_count_in_disc() {
    let mut v = VisitedGrid::new(10, 10);
    // a disc of radius 2 covers 13 offsets
    assert_eq!(unvisited_count_in_radius(&v, GridCell { x: 5, y: 5 }, 2), 13);
    v.mark(GridCell { x: 5, y: 5 });
    v.mark(GridCell { x: 6, y: 5 });
    assert_eq!(unvisited_count_in_radius(&v, GridCell { x: 5, y: 5 }, 2), 11);
    // cells beyond the mask count as unvisited
    assert_eq!(unvisited_count_in_radius(&v, GridCell { x: 0, y: 0 }, 2), 13);
    assert_eq!(unvisited_count_in_radius(&v, GridCell { x: 3, y: 3 }, 0), 1);
}

#[test]
fn disabling_navigation_zeroes_command() {
    let mut mode = AutoNavMode::default();
    assert!(mode.enabled);
    assert_eq!(mode.phase, Phase::WallSweep);
    let mut cmd = CmdVel { linear: 700, angular: -300 };
    toggle_enabled(&mut mode, &mut cmd);
    assert!(!mode.enabled);
    assert_eq!(cmd.linear, 0);
    assert_eq!(cmd.angular, 0);
    cmd.linear = 55;
    toggle_enabled(&mut mode, &mut cmd);
    assert!(mode.enabled);
    assert_eq!(cmd.linear, 55);
}

#[test]
fn phase_toggle_flips() {
    let mut mode = AutoNavMode::default();
    toggle_phase(&mut mode);
    assert_eq!(mode.phase, Phase::Fill);
    assert!(mode.enabled);
    toggle_phase(&mut mode);
    assert_eq!(mode.phase, Phase::WallSweep);
}
