use pick_e::cmd_vel::CmdVel;
use pick_e::done::stop_when_done;
use pick_e::follow::{follow_path_step, heading_clear_ok, heading_clearance_cells,
    pick_best_heading, HeadingOption, HeadingRay};
use pick_e::grid::{CellState, GridCell, OccupancyGrid, WorldPos};
use pick_e::mode::{AutoNavMode, Phase};
use pick_e::planner::PathPlan;

fn open_grid(w: usize, h: usize) -> OccupancyGrid {
    let mut g = OccupancyGrid::new(w, h, 100, WorldPos { x: 0, y: 0 });
    for y in 0..h {
        for x in 0..w {
            g.set(x, y, CellState::Free);
        }
    }
    g
}

fn straight(dir_x_mil: i32, dir_y_mil: i32) -> HeadingOption {
    HeadingOption { dir_x_mil, dir_y_mil, align_mil: 1000, angle_mrad: 0, cross_neg: false }
}

#[test]
fn clearance_in_open_space() {
    let g = open_grid(20, 20);
    // heading east from the middle: the worst sample sits six cells from
    // the east edge
    let c = heading_clearance_cells(&g, WorldPos { x: 1050, y: 1050 }, 1000, 0);
    assert_eq!(c, 6);
}

#[test]
fn clearance_zero_outside_grid() {
    let g = open_grid(10, 10);
    // heading west from near the west edge runs off the grid
    let c = heading_clearance_cells(&g, WorldPos { x: 150, y: 550 }, -1000, 0);
    assert_eq!(c, 0);
}

#[test]
fn clearance_sees_walls() {
    let mut g = open_grid(20, 20);
    for y in 0..20 {
        g.set(13, y, CellState::Solid);
    }
    // heading east from (10,10): samples approach the Solid column
    let c = heading_clearance_cells(&g, WorldPos { x: 1050, y: 1050 }, 1000, 0);
    assert_eq!(c, 0);
    // heading west instead keeps more room
    let w = heading_clearance_cells(&g, WorldPos { x: 1050, y: 1050 }, -1000, 0);
    assert!(w >= 3);
}

#[test]
fn forward_cone_detects_blockage() {
    let g = open_grid(10, 10);
    let into_edge = vec![HeadingRay { dir_x_mil: -1000, dir_y_mil: 0 }];
    assert!(!heading_clear_ok(&g, WorldPos { x: 150, y: 550 }, &into_edge));
    let open = vec![HeadingRay { dir_x_mil: 1000, dir_y_mil: 0 }];
    assert!(heading_clear_ok(&g, WorldPos { x: 150, y: 550 }, &open));
}

#[test]
fn best_heading_prefers_clearance_then_alignment() {
    let mut g = open_grid(20, 20);
    for y in 0..20 {
        g.set(13, y, CellState::Solid);
    }
    let pos = WorldPos { x: 1050, y: 1050 };
    // east runs into the wall; north stays clear but aligns worse
    let opts = vec![
        HeadingOption { dir_x_mil: 1000, dir_y_mil: 0, align_mil: 1000, angle_mrad: 0, cross_neg: false },
        HeadingOption { dir_x_mil: 0, dir_y_mil: 1000, align_mil: 100, angle_mrad: 500, cross_neg: true },
    ];
    assert_eq!(pick_best_heading(&g, pos, &opts), 1);
    // with equal clearance the alignment decides, earliest of equals first
    let opts2 = vec![
        HeadingOption { dir_x_mil: 0, dir_y_mil: 1000, align_mil: 700, angle_mrad: 0, cross_neg: false },
        HeadingOption { dir_x_mil: 0, dir_y_mil: 1000, align_mil: 700, angle_mrad: 100, cross_neg: false },
        HeadingOption { dir_x_mil: 0, dir_y_mil: 1000, align_mil: 900, angle_mrad: 200, cross_neg: false },
    ];
    assert_eq!(pick_best_heading(&g, pos, &opts2), 2);
}

#[test]
fn follower_idles_when_disabled() {
    let g = open_grid(20, 20);
    let mode = AutoNavMode { enabled: false, phase: Phase::WallSweep };
    let mut plan = PathPlan { cells: vec![GridCell { x: 15, y: 15 }], target: GridCell { x: 15, y: 15 } };
    let mut cmd = CmdVel { linear: 123, angular: -45 };
    let opts = vec![straight(1000, 0)];
    let cone = vec![HeadingRay { dir_x_mil: 1000, dir_y_mil: 0 }];
    follow_path_step(&g, &mode, &mut plan, WorldPos { x: 1050, y: 1050 }, &opts, &cone, &mut cmd);
    assert_eq!(cmd.linear, 123);
    assert_eq!(cmd.angular, -45);
    assert_eq!(plan.cells.len(), 1);
}

#[test]
fn follower_stops_without_waypoints() {
    let g = open_grid(20, 20);
    let mode = AutoNavMode::default();
    let mut plan = PathPlan { cells: vec![], target: GridCell { x: 0, y: 0 } };
    let mut cmd = CmdVel { linear: 123, angular: -45 };
    let opts = vec![straight(1000, 0)];
    let cone = vec![HeadingRay { dir_x_mil: 1000, dir_y_mil: 0 }];
    follow_path_step(&g, &mode, &mut plan, WorldPos { x: 1050, y: 1050 }, &opts, &cone, &mut cmd);
    assert_eq!(cmd.linear, 0);
    assert_eq!(cmd.angular, 0);
}

#[test]
fn follower_pops_waypoint_on_arrival() {
    let g = open_grid(20, 20);
    let mode = AutoNavMode::default();
    let wp1 = GridCell { x: 3, y: 3 };
    let wp2 = GridCell { x: 10, y: 3 };
    let mut plan = PathPlan { cells: vec![wp1, wp2], target: wp2 };
    let mut cmd = CmdVel { linear: 777, angular: 1 };
    let opts = vec![straight(1000, 0)];
    let cone = vec![HeadingRay { dir_x_mil: 1000, dir_y_mil: 0 }];
    // cell (3,3) has its center at (350,350); (360,355) is within the
    // arrival radius of 0.4 cells
    follow_path_step(&g, &mode, &mut plan, WorldPos { x: 360, y: 355 }, &opts, &cone, &mut cmd);
    assert_eq!(plan.cells, vec![wp2]);
    // a waypoint remains, so this tick's command is left as it was
    assert_eq!(cmd.linear, 777);
    assert_eq!(cmd.angular, 1);
}

#[test]
fn follower_stops_after_last_waypoint() {
    let g = open_grid(20, 20);
    let mode = AutoNavMode::default();
    let wp = GridCell { x: 3, y: 3 };
    let mut plan = PathPlan { cells: vec![wp], target: wp };
    let mut cmd = CmdVel { linear: 777, angular: 1 };
    let opts = vec![straight(1000, 0)];
    let cone = vec![HeadingRay { dir_x_mil: 1000, dir_y_mil: 0 }];
    follow_path_step(&g, &mode, &mut plan, WorldPos { x: 360, y: 355 }, &opts, &cone, &mut cmd);
    assert_eq!(plan.cells.len(), 0);
    assert_eq!(cmd.linear, 0);
    assert_eq!(cmd.angular, 0);
}

#[test]
fn follower_runs_at_full_scale_in_the_open() {
    let g = open_grid(20, 20);
    let mode = AutoNavMode::default();
    let wp = GridCell { x: 17, y: 10 };
    let mut plan = PathPlan { cells: vec![wp], target: wp };
    let mut cmd = CmdVel { linear: 0, angular: 0 };
    let opts = vec![straight(1000, 0)];
    let cone = vec![HeadingRay { dir_x_mil: 1000, dir_y_mil: 0 }];
    follow_path_step(&g, &mode, &mut plan, WorldPos { x: 1050, y: 1050 }, &opts, &cone, &mut cmd);
    // clearance 6 scales to full: 0.85 of full scale, driving straight
    assert_eq!(cmd.linear, 850);
    assert_eq!(cmd.angular, 0);
    assert_eq!(plan.cells.len(), 1);
}

#[test]
fn follower_rotates_in_place_on_sharp_turn() {
    let g = open_grid(20, 20);
    let mode = AutoNavMode::default();
    let wp = GridCell { x: 2, y: 10 };
    let mut plan = PathPlan { cells: vec![wp], target: wp };
    let mut cmd = CmdVel { linear: 0, angular: 0 };
    // the chosen heading asks for a 0.8 rad turn, clockwise
    let opts = vec![HeadingOption {
        dir_x_mil: -1000,
        dir_y_mil: 0,
        align_mil: 1000,
        angle_mrad: 800,
        cross_neg: true,
    }];
    let cone = vec![HeadingRay { dir_x_mil: 1000, dir_y_mil: 0 }];
    follow_path_step(&g, &mode, &mut plan, WorldPos { x: 1050, y: 1050 }, &opts, &cone, &mut cmd);
    assert_eq!(cmd.linear, 0);
    assert_eq!(cmd.angular, -800);
}

#[test]
fn follower_slows_through_moderate_turn() {
    let g = open_grid(20, 20);
    let mode = AutoNavMode::default();
    let wp = GridCell { x: 17, y: 12 };
    let mut plan = PathPlan { cells: vec![wp], target: wp };
    let mut cmd = CmdVel { linear: 0, angular: 0 };
    let opts = vec![HeadingOption {
        dir_x_mil: 950,
        dir_y_mil: 310,
        align_mil: 1000,
        angle_mrad: 500,
        cross_neg: false,
    }];
    let cone = vec![HeadingRay { dir_x_mil: 1000, dir_y_mil: 0 }];
    follow_path_step(&g, &mode, &mut plan, WorldPos { x: 1050, y: 1050 }, &opts, &cone, &mut cmd);
    // a turn between 0.35 and 0.70 rad discounts forward motion to 0.4 of
    // full scale
    assert_eq!(cmd.linear, 340);
    assert_eq!(cmd.angular, 500);
}

#[test]
fn follower_holds_back_when_cone_blocked() {
    let g = open_grid(10, 10);
    let mode = AutoNavMode::default();
    let wp = GridCell { x: 1, y: 5 };
    let mut plan = PathPlan { cells: vec![wp], target: wp };
    let mut cmd = CmdVel { linear: 0, angular: 0 };
    let opts = vec![straight(-1000, 0)];
    // the forward cone runs off the west edge: zero clearance
    let cone = vec![HeadingRay { dir_x_mil: -1000, dir_y_mil: 0 }];
    follow_path_step(&g, &mode, &mut plan, WorldPos { x: 150, y: 550 }, &opts, &cone, &mut cmd);
    assert_eq!(cmd.linear, 0);
}

#[test]
fn completion_clears_plan_and_stops() {
    // an all-Unknown grid holds no Free cell, so nothing is explorable
    let g = OccupancyGrid::new(10, 10, 100, WorldPos { x: 0, y: 0 });
    let mode = AutoNavMode::default();
    let mut plan = Some(PathPlan { cells: vec![GridCell { x: 1, y: 1 }], target: GridCell { x: 1, y: 1 } });
    let mut cmd = CmdVel { linear: 600, angular: -600 };
    let done = stop_when_done(&g, &mode, &mut plan, &mut cmd);
    assert!(done);
    assert!(plan.is_none());
    assert_eq!(cmd.linear, 0);
    assert_eq!(cmd.angular, 0);
}

#[test]
fn completion_waits_while_frontier_remains() {
    // Free west half, Unknown east half: the boundary column is a safe
    // frontier, so exploration is not over
    let mut g = OccupancyGrid::new(20, 20, 100, WorldPos { x: 0, y: 0 });
    for y in 0..20 {
        for x in 0..10 {
            g.set(x, y, CellState::Free);
        }
    }
    let mode = AutoNavMode::default();
    let mut plan = Some(PathPlan { cells: vec![GridCell { x: 1, y: 1 }], target: GridCell { x: 1, y: 1 } });
    let mut cmd = CmdVel { linear: 600, angular: -600 };
    let done = stop_when_done(&g, &mode, &mut plan, &mut cmd);
    assert!(!done);
    assert!(plan.is_some());
    assert_eq!(cmd.linear, 600);
}

#[test]
fn completion_respects_disable() {
    let g = OccupancyGrid::new(10, 10, 100, WorldPos { x: 0, y: 0 });
    let mode = AutoNavMode { enabled: false, phase: Phase::Fill };
    let mut plan = None;
    let mut cmd = CmdVel { linear: 300, angular: 0 };
    let done = stop_when_done(&g, &mode, &mut plan, &mut cmd);
    assert!(!done);
    assert_eq!(cmd.linear, 300);
}
