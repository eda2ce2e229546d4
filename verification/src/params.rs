//! Tuning parameters of the navigation stack.  Distances are in cells,
//! angles in milliradians, unit-vector components and commands in
//! thousandths.

use vstd::prelude::*;

verus! {

/// Minimum distance (cells) from any Solid cell or grid edge for a cell to
/// count as safe.
pub const SAFE_MARGIN_MIN: i32 = 2;

/// Upper bound (cells) of the wall band used to bias exploration near walls.
pub const WALL_BAND_MAX: i32 = 4;

/// Ring radius (cells) at which the distance-to-solid scan gives up and
/// reports the cell as maximally safe.
pub const DIST_SCAN_MAX: i32 = 6;

/// Extra step cost charged during WallSweep for a step leaving the wall band.
pub const COST_NON_BAND_PENALTY: u64 = 4;

/// Number of lookahead points sampled along a heading by the clearance probe.
pub const AVOID_LOOKAHEAD_STEPS: i32 = 6;

/// Spacing of those points, in thousandths of a cell.
pub const AVOID_STEP_SIZE_MIL: i64 = 600;

/// Minimum clearance (cells) each ray of the forward cone must report.
pub const AVOID_REQUIRED_CLEARANCE: i32 = 1;

/// Largest linear command magnitude, in thousandths.
pub const CMD_VEL_MAX_LIN: i32 = 850;

/// Largest angular command magnitude, in thousandths (milliradians).
pub const CMD_VEL_MAX_ANG: i32 = 1000;

/// Turn angle (milliradians) above which the agent rotates in place.
pub const ROTATE_ONLY_ANGLE: i32 = 700;

/// Turn angle (milliradians) above which forward motion is discounted.
pub const MODERATE_TURN_ANGLE: i32 = 350;

/// Arrival radius around a waypoint's cell center, in thousandths of a cell.
pub const ARRIVE_RADIUS_MIL: i64 = 400;

} // verus!
