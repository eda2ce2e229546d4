//! Path follower: converts the active plan's next waypoint into a
//! commanded velocity, with local reactive avoidance.
//!
//! The follower works in fixed point: the caller hands it the candidate
//! headings (the desired direction rotated by a fixed set of offsets) and
//! the forward-cone rays as unit vectors in thousandths, together with
//! each candidate's alignment and turn angle.  The follower probes
//! clearance along each direction itself, scores the candidates, and
//! derives the command.

use vstd::prelude::*;

verus! {

use crate::cmd_vel::CmdVel;
use crate::distance::{dist_to_blocked, distance_to_solid_or_edge};
use crate::grid::{GridCell, OccupancyGrid, WorldPos};
use crate::mode::AutoNavMode;
use crate::params::{ARRIVE_RADIUS_MIL, AVOID_LOOKAHEAD_STEPS, AVOID_REQUIRED_CLEARANCE,
    AVOID_STEP_SIZE_MIL, CMD_VEL_MAX_ANG, CMD_VEL_MAX_LIN, DIST_SCAN_MAX, MODERATE_TURN_ANGLE,
    ROTATE_ONLY_ANGLE};
use crate::planner::PathPlan;

/// Largest world-coordinate magnitude the follower accepts for a pose.
pub const MAX_WORLD_ABS: i64 = 2000000000000000;

/// One candidate heading: its unit direction in thousandths, its
/// alignment with the desired direction in thousandths, and the turn it
/// asks of the agent, as an unsigned angle in milliradians with the turn
/// direction's sign.
#[derive(Clone, Copy, PartialEq, Eq, Structural, Debug)]
pub struct HeadingOption {
    pub dir_x_mil: i32,
    pub dir_y_mil: i32,
    pub align_mil: i32,
    pub angle_mrad: i32,
    pub cross_neg: bool,
}

/// One ray of the forward safety cone, as a unit direction in thousandths.
#[derive(Clone, Copy, PartialEq, Eq, Structural, Debug)]
pub struct HeadingRay {
    pub dir_x_mil: i32,
    pub dir_y_mil: i32,
}

/// Truncating division of a scaled offset by one million.
pub open spec fn scaled_div(num: int) -> int {
    if num >= 0 {
        num / 1000000
    } else {
        -((-num) / 1000000)
    }
}

/// The k-th lookahead point along a heading: `pos` displaced by the unit
/// direction times k sample spacings.
pub open spec fn sample_point(
    g: OccupancyGrid,
    pos: WorldPos,
    dxm: int,
    dym: int,
    k: int,
) -> WorldPos {
    WorldPos {
        x: (pos.x + scaled_div(dxm * k * AVOID_STEP_SIZE_MIL * g.resolution)) as i64,
        y: (pos.y + scaled_div(dym * k * AVOID_STEP_SIZE_MIL * g.resolution)) as i64,
    }
}

/// Clearance along a heading from sample k on: the least distance to
/// Solid-or-edge over the remaining lookahead points, and 0 as soon as a
/// point leaves the grid.
pub open spec fn clearance_from(g: OccupancyGrid, pos: WorldPos, dxm: int, dym: int, k: int) -> int
    decreases AVOID_LOOKAHEAD_STEPS + 1 - k,
{
    if k > AVOID_LOOKAHEAD_STEPS {
        DIST_SCAN_MAX + 1
    } else {
        match g.world_to_cell_spec(sample_point(g, pos, dxm, dym, k)) {
            Option::None => 0,
            Option::Some(c) => {
                let d = dist_to_blocked(g, c.x as int, c.y as int, DIST_SCAN_MAX as int);
                let rest = clearance_from(g, pos, dxm, dym, k + 1);
                if d <= rest {
                    d
                } else {
                    rest
                }
            },
        }
    }
}

/// Clearance along a heading: the least distance to Solid-or-edge across
/// the fixed lookahead points, 0 when any of them leaves the grid.
pub open spec fn heading_clearance(g: OccupancyGrid, pos: WorldPos, dxm: int, dym: int) -> int {
    clearance_from(g, pos, dxm, dym, 1)
}

/// Every ray of the forward cone clears the required margin.
pub open spec fn cone_clear(g: OccupancyGrid, pos: WorldPos, rays: Seq<HeadingRay>) -> bool {
    forall|j: int|
        0 <= j < rays.len() ==> heading_clearance(
            g,
            pos,
            (#[trigger] rays[j]).dir_x_mil as int,
            rays[j].dir_y_mil as int,
        ) >= AVOID_REQUIRED_CLEARANCE
}

/// Clamps a thousandths value into [0, 1000].
pub open spec fn clamp_mil(a: int) -> int {
    if a < 0 {
        0
    } else if a > 1000 {
        1000
    } else {
        a
    }
}

/// A candidate's score: clearance weighted 3, alignment weighted 1, both
/// in thousandths.
pub open spec fn heading_score(g: OccupancyGrid, pos: WorldPos, o: HeadingOption) -> int {
    3000 * heading_clearance(g, pos, o.dir_x_mil as int, o.dir_y_mil as int) + clamp_mil(
        o.align_mil as int,
    )
}

/// The index of the best-scoring candidate among the first `j`, earliest
/// of equals first.
pub open spec fn best_heading_idx(
    g: OccupancyGrid,
    pos: WorldPos,
    opts: Seq<HeadingOption>,
    j: int,
) -> int
    decreases j,
{
    if j <= 1 {
        0
    } else {
        let b = best_heading_idx(g, pos, opts, j - 1);
        if heading_score(g, pos, opts[j - 1]) > heading_score(g, pos, opts[b]) {
            j - 1
        } else {
            b
        }
    }
}

/// The turn the chosen candidate asks for, clamped to the angular command
/// range.
pub open spec fn turn_angle(o: HeadingOption) -> int {
    if o.angle_mrad < 0 {
        0
    } else if o.angle_mrad > CMD_VEL_MAX_ANG {
        CMD_VEL_MAX_ANG as int
    } else {
        o.angle_mrad as int
    }
}

/// The angular command: the clamped turn angle, signed by turn direction.
pub open spec fn spec_ang_cmd(o: HeadingOption) -> int {
    if o.cross_neg {
        -turn_angle(o)
    } else {
        turn_angle(o)
    }
}

/// The linear scale from clearance: soft deceleration near obstacles,
/// between a quarter and full scale, in thousandths.
pub open spec fn lin_scale(clear: int) -> int {
    if clear * 250 < 250 {
        250
    } else if clear * 250 > 1000 {
        1000
    } else {
        clear * 250
    }
}

/// The linear command: zero when rotating in place or the forward cone
/// fails, a fixed discount for a moderate turn, else full scale softened
/// by the chosen heading's clearance.
pub open spec fn spec_lin_cmd(g: OccupancyGrid, pos: WorldPos, o: HeadingOption, fwd_ok: bool) -> int {
    if turn_angle(o) > ROTATE_ONLY_ANGLE || !fwd_ok {
        0
    } else if turn_angle(o) > MODERATE_TURN_ANGLE {
        (2 * CMD_VEL_MAX_LIN) / 5
    } else {
        (CMD_VEL_MAX_LIN * lin_scale(
            heading_clearance(g, pos, o.dir_x_mil as int, o.dir_y_mil as int),
        )) / 1000
    }
}

/// Whether `pos` lies within the arrival radius of cell `c`'s center.
pub open spec fn arrived_at(g: OccupancyGrid, pos: WorldPos, c: GridCell) -> bool {
    let t = g.cell_to_world_spec(c);
    let dx = pos.x - t.x;
    let dy = pos.y - t.y;
    1000000 * (dx * dx + dy * dy) < ARRIVE_RADIUS_MIL * ARRIVE_RADIUS_MIL * g.resolution
        * g.resolution
}

/// Probes the lookahead points along one heading and reports the least
/// distance to a Solid cell or the grid edge, 0 when a point leaves the
/// grid.
pub fn heading_clearance_cells(grid: &OccupancyGrid, pos: WorldPos, dir_x_mil: i32, dir_y_mil: i32) -> (r: i32)
    requires
        grid.wf(),
        -MAX_WORLD_ABS <= pos.x <= MAX_WORLD_ABS,
        -MAX_WORLD_ABS <= pos.y <= MAX_WORLD_ABS,
        -1000 <= dir_x_mil <= 1000,
        -1000 <= dir_y_mil <= 1000,
    ensures
        r == heading_clearance(*grid, pos, dir_x_mil as int, dir_y_mil as int),
        0 <= r <= DIST_SCAN_MAX + 1,
{
    let mut acc: i32 = DIST_SCAN_MAX + 1;
    let mut k: i32 = 1;
    proof {
        lemma_clearance_range(*grid, pos, dir_x_mil as int, dir_y_mil as int, 1);
    }
    while k <= AVOID_LOOKAHEAD_STEPS
        invariant
            grid.wf(),
            -MAX_WORLD_ABS <= pos.x <= MAX_WORLD_ABS,
            -MAX_WORLD_ABS <= pos.y <= MAX_WORLD_ABS,
            -1000 <= dir_x_mil <= 1000,
            -1000 <= dir_y_mil <= 1000,
            1 <= k <= AVOID_LOOKAHEAD_STEPS + 1,
            0 <= acc <= DIST_SCAN_MAX + 1,
            heading_clearance(*grid, pos, dir_x_mil as int, dir_y_mil as int) == (if clearance_from(
                *grid,
                pos,
                dir_x_mil as int,
                dir_y_mil as int,
                k as int,
            ) <= acc {
                clearance_from(*grid, pos, dir_x_mil as int, dir_y_mil as int, k as int)
            } else {
                acc as int
            }),
        decreases AVOID_LOOKAHEAD_STEPS + 1 - k,
    {
        proof {
            lemma_offset_bounded(dir_x_mil as int, k as int, grid.resolution as int);
            lemma_offset_bounded(dir_y_mil as int, k as int, grid.resolution as int);
        }
        let num_x: i64 = (dir_x_mil as i64) * (k as i64) * AVOID_STEP_SIZE_MIL * grid.resolution;
        let num_y: i64 = (dir_y_mil as i64) * (k as i64) * AVOID_STEP_SIZE_MIL * grid.resolution;
        let off_x: i64 = if num_x >= 0 {
            ((num_x as u64) / 1000000) as i64
        } else {
            -((((-num_x) as u64) / 1000000) as i64)
        };
        let off_y: i64 = if num_y >= 0 {
            ((num_y as u64) / 1000000) as i64
        } else {
            -((((-num_y) as u64) / 1000000) as i64)
        };
        let p = WorldPos { x: pos.x + off_x, y: pos.y + off_y };
        proof {
            assert(p == sample_point(*grid, pos, dir_x_mil as int, dir_y_mil as int, k as int));
        }
        proof {
            lemma_clearance_range(*grid, pos, dir_x_mil as int, dir_y_mil as int, k as int);
            lemma_clearance_range(*grid, pos, dir_x_mil as int, dir_y_mil as int, k + 1);
        }
        match grid.world_to_cell(p) {
            Option::Some(c) => {
                let d = distance_to_solid_or_edge(grid, c, DIST_SCAN_MAX);
                proof {
                    if !grid.blocked(c.x as int, c.y as int) {
                        crate::distance::lemma_dist_from_range(
                            *grid,
                            c.x as int,
                            c.y as int,
                            1,
                            DIST_SCAN_MAX as int,
                        );
                    }
                }
                if d < acc {
                    acc = d;
                }
            },
            Option::None => {
                proof {
                    assert(clearance_from(*grid, pos, dir_x_mil as int, dir_y_mil as int, k as int)
                        == 0);
                }
                return 0;
            },
        }
        k = k + 1;
    }
    acc
}

/// The scaled displacement along one axis stays small, at every partial
/// product.
proof fn lemma_offset_bounded(d: int, k: int, res: int)
    requires
        -1000 <= d <= 1000,
        1 <= k <= AVOID_LOOKAHEAD_STEPS,
        1 <= res <= 1000000,
    ensures
        -6000 <= d * k <= 6000,
        -3600000 <= d * k * AVOID_STEP_SIZE_MIL <= 3600000,
        -3600000000000 <= d * k * AVOID_STEP_SIZE_MIL * res <= 3600000000000,
{
    assert(-6000 <= d * k <= 6000 && -3600000 <= d * k * 600 <= 3600000 && -3600000000000 <= d * k
        * 600 * res <= 3600000000000) by (nonlinear_arith)
        requires
            -1000 <= d <= 1000,
            1 <= k <= 6,
            1 <= res <= 1000000,
    ;
}

/// A cell center's coordinate along one axis stays well inside i64.
proof fn lemma_center_bounded(c: int, res: int)
    requires
        -0x80000000 <= c <= 0x80000000,
        1 <= res <= 1000000,
    ensures
        -0x2000000000000000 <= c * res <= 0x2000000000000000,
{
    assert(-0x2000000000000000 <= c * res <= 0x2000000000000000) by (nonlinear_arith)
        requires
            -0x80000000 <= c <= 0x80000000,
            1 <= res <= 1000000,
    ;
}

/// Clearance values stay between 0 and one past the scan radius.
proof fn lemma_clearance_range(g: OccupancyGrid, pos: WorldPos, dxm: int, dym: int, k: int)
    requires
        g.wf(),
        k >= 1,
    ensures
        0 <= clearance_from(g, pos, dxm, dym, k) <= DIST_SCAN_MAX + 1,
    decreases AVOID_LOOKAHEAD_STEPS + 1 - k,
{
    if k <= AVOID_LOOKAHEAD_STEPS {
        lemma_clearance_range(g, pos, dxm, dym, k + 1);
        match g.world_to_cell_spec(sample_point(g, pos, dxm, dym, k)) {
            Option::None => {},
            Option::Some(c) => {
                if !g.blocked(c.x as int, c.y as int) {
                    crate::distance::lemma_dist_from_range(
                        g,
                        c.x as int,
                        c.y as int,
                        1,
                        DIST_SCAN_MAX as int,
                    );
                }
            },
        }
    }
}

/// Whether every ray of the forward cone clears the required margin: the
/// virtual bumper ahead of the agent.
pub fn heading_clear_ok(grid: &OccupancyGrid, pos: WorldPos, rays: &Vec<HeadingRay>) -> (r: bool)
    requires
        grid.wf(),
        -MAX_WORLD_ABS <= pos.x <= MAX_WORLD_ABS,
        -MAX_WORLD_ABS <= pos.y <= MAX_WORLD_ABS,
        forall|j: int|
            0 <= j < rays@.len() ==> -1000 <= (#[trigger] rays@[j]).dir_x_mil <= 1000 && -1000
                <= rays@[j].dir_y_mil <= 1000,
    ensures
        r == cone_clear(*grid, pos, rays@),
{
    let mut j: usize = 0;
    while j < rays.len()
        invariant
            grid.wf(),
            -MAX_WORLD_ABS <= pos.x <= MAX_WORLD_ABS,
            -MAX_WORLD_ABS <= pos.y <= MAX_WORLD_ABS,
            j <= rays@.len(),
            forall|i: int|
                0 <= i < rays@.len() ==> -1000 <= (#[trigger] rays@[i]).dir_x_mil <= 1000 && -1000
                    <= rays@[i].dir_y_mil <= 1000,
            forall|i: int|
                0 <= i < j ==> heading_clearance(
                    *grid,
                    pos,
                    (#[trigger] rays@[i]).dir_x_mil as int,
                    rays@[i].dir_y_mil as int,
                ) >= AVOID_REQUIRED_CLEARANCE,
        decreases rays@.len() - j,
    {
        let ray = rays[j];
        let c = heading_clearance_cells(grid, pos, ray.dir_x_mil, ray.dir_y_mil);
        if c < AVOID_REQUIRED_CLEARANCE {
            return false;
        }
        j = j + 1;
    }
    true
}

/// Picks the candidate heading with the best clearance-and-alignment
/// score, earliest of equals first.
pub fn pick_best_heading(grid: &OccupancyGrid, pos: WorldPos, opts: &Vec<HeadingOption>) -> (best:
    usize)
    requires
        grid.wf(),
        -MAX_WORLD_ABS <= pos.x <= MAX_WORLD_ABS,
        -MAX_WORLD_ABS <= pos.y <= MAX_WORLD_ABS,
        opts@.len() >= 1,
        forall|j: int|
            0 <= j < opts@.len() ==> -1000 <= (#[trigger] opts@[j]).dir_x_mil <= 1000 && -1000
                <= opts@[j].dir_y_mil <= 1000,
    ensures
        best < opts@.len(),
        best as int == best_heading_idx(*grid, pos, opts@, opts@.len() as int),
{
    let mut best: usize = 0;
    let first = opts[0];
    let c0 = heading_clearance_cells(grid, pos, first.dir_x_mil, first.dir_y_mil);
    let mut best_score: i32 = 3000 * c0 + clamp_align(first.align_mil);
    let mut j: usize = 1;
    while j < opts.len()
        invariant
            grid.wf(),
            -MAX_WORLD_ABS <= pos.x <= MAX_WORLD_ABS,
            -MAX_WORLD_ABS <= pos.y <= MAX_WORLD_ABS,
            1 <= j <= opts@.len(),
            best < j,
            forall|i: int|
                0 <= i < opts@.len() ==> -1000 <= (#[trigger] opts@[i]).dir_x_mil <= 1000 && -1000
                    <= opts@[i].dir_y_mil <= 1000,
            best as int == best_heading_idx(*grid, pos, opts@, j as int),
            best_score as int == heading_score(*grid, pos, opts@[best as int]),
        decreases opts@.len() - j,
    {
        let o = opts[j];
        let c = heading_clearance_cells(grid, pos, o.dir_x_mil, o.dir_y_mil);
        let score: i32 = 3000 * c + clamp_align(o.align_mil);
        if score > best_score {
            best = j;
            best_score = score;
        }
        j = j + 1;
    }
    best
}

/// Clamps an alignment value into [0, 1000].
fn clamp_align(a: i32) -> (r: i32)
    ensures
        r as int == clamp_mil(a as int),
{
    if a < 0 {
        0
    } else if a > 1000 {
        1000
    } else {
        a
    }
}

/// One follower tick.  With navigation disabled nothing changes.  With no
/// waypoint left the agent is commanded to hold still.  Within the
/// arrival radius of the next waypoint that waypoint is popped, and the
/// agent holds still if it was the last.  Otherwise the candidate
/// headings are scored, and the chosen one's turn and clearance determine
/// the command: rotate in place on a sharp turn or a blocked forward
/// cone, move cautiously through a moderate turn, else run at full scale
/// softened by clearance.
pub fn follow_path_step(
    grid: &OccupancyGrid,
    mode: &AutoNavMode,
    plan: &mut PathPlan,
    pos: WorldPos,
    options: &Vec<HeadingOption>,
    cone: &Vec<HeadingRay>,
    cmd: &mut CmdVel,
)
    requires
        grid.wf(),
        -MAX_WORLD_ABS <= pos.x <= MAX_WORLD_ABS,
        -MAX_WORLD_ABS <= pos.y <= MAX_WORLD_ABS,
        options@.len() >= 1,
        forall|j: int|
            0 <= j < options@.len() ==> -1000 <= (#[trigger] options@[j]).dir_x_mil <= 1000
                && -1000 <= options@[j].dir_y_mil <= 1000,
        forall|j: int|
            0 <= j < cone@.len() ==> -1000 <= (#[trigger] cone@[j]).dir_x_mil <= 1000 && -1000
                <= cone@[j].dir_y_mil <= 1000,
    ensures
        !mode.enabled ==> *final(plan) == *old(plan) && *final(cmd) == *old(cmd),
        mode.enabled && old(plan).cells@.len() == 0 ==> *final(plan) == *old(plan)
            && final(cmd).is_zero(),
        mode.enabled && old(plan).cells@.len() > 0 && arrived_at(
            *grid,
            pos,
            old(plan).cells@[0],
        ) ==> {
            &&& final(plan).cells@ == old(plan).cells@.subrange(1, old(plan).cells@.len() as int)
            &&& final(plan).target == old(plan).target
            &&& (old(plan).cells@.len() == 1 ==> final(cmd).is_zero())
            &&& (old(plan).cells@.len() > 1 ==> *final(cmd) == *old(cmd))
        },
        mode.enabled && old(plan).cells@.len() > 0 && !arrived_at(
            *grid,
            pos,
            old(plan).cells@[0],
        ) ==> {
            let o = options@[best_heading_idx(*grid, pos, options@, options@.len() as int)];
            &&& *final(plan) == *old(plan)
            &&& final(cmd).angular as int == spec_ang_cmd(o)
            &&& final(cmd).linear as int == spec_lin_cmd(*grid, pos, o, cone_clear(
                *grid,
                pos,
                cone@,
            ))
        },
{
    if !mode.enabled {
        return ;
    }
    if plan.cells.len() == 0 {
        cmd.stop();
        return ;
    }
    let next = plan.cells[0];
    let target = grid.cell_to_world(next);
    proof {
        lemma_center_bounded(next.x as int, grid.resolution as int);
        lemma_center_bounded(next.y as int, grid.resolution as int);
    }
    let dx = pos.x - target.x;
    let dy = pos.y - target.y;
    let near = -grid.resolution < dx && dx < grid.resolution && -grid.resolution < dy && dy
        < grid.resolution;
    let mut arrived = false;
    if near {
        proof {
            lemma_arrive_square_bounded(dx as int, dy as int, grid.resolution as int);
        }
        arrived = 1000000 * (dx * dx + dy * dy) < ARRIVE_RADIUS_MIL * ARRIVE_RADIUS_MIL
            * grid.resolution * grid.resolution;
    } else {
        proof {
            lemma_far_not_arrived(*grid, pos, next, dx as int, dy as int);
        }
    }
    if arrived {
        let ghost cells0 = plan.cells@;
        let _ = plan.cells.remove(0);
        proof {
            assert(plan.cells@ =~= cells0.subrange(1, cells0.len() as int));
        }
        if plan.cells.len() == 0 {
            cmd.stop();
        }
        return ;
    }
    let fwd_ok = heading_clear_ok(grid, pos, cone);
    let best = pick_best_heading(grid, pos, options);
    let o = options[best];
    let angle: i32 = if o.angle_mrad < 0 {
        0
    } else if o.angle_mrad > CMD_VEL_MAX_ANG {
        CMD_VEL_MAX_ANG
    } else {
        o.angle_mrad
    };
    let rotate_only = angle > ROTATE_ONLY_ANGLE || !fwd_ok;
    let ang_cmd: i32 = if o.cross_neg {
        -angle
    } else {
        angle
    };
    let lin_cmd: i32 = if rotate_only {
        0
    } else if angle > MODERATE_TURN_ANGLE {
        (2 * CMD_VEL_MAX_LIN) / 5
    } else {
        let clear = heading_clearance_cells(grid, pos, o.dir_x_mil, o.dir_y_mil);
        let scale: i32 = if clear * 250 < 250 {
            250
        } else if clear * 250 > 1000 {
            1000
        } else {
            clear * 250
        };
        (CMD_VEL_MAX_LIN * scale) / 1000
    };
    cmd.linear = lin_cmd;
    cmd.angular = ang_cmd;
}

/// Squares of in-cell offsets stay well inside i64.
proof fn lemma_arrive_square_bounded(dx: int, dy: int, res: int)
    requires
        -res < dx < res,
        -res < dy < res,
        1 <= res <= 1000000,
    ensures
        0 <= dx * dx < 1000000000000,
        0 <= dy * dy < 1000000000000,
        0 <= dx * dx + dy * dy < 2000000000000,
        0 <= 1000000 * (dx * dx + dy * dy) < 2000000000000000000,
        0 <= ARRIVE_RADIUS_MIL * ARRIVE_RADIUS_MIL * res < 200000000000,
        0 <= ARRIVE_RADIUS_MIL * ARRIVE_RADIUS_MIL * res * res < 200000000000000000,
{
    assert(0 <= dx * dx < 1000000000000 && 0 <= dy * dy < 1000000000000 && 0 <= 1000000 * (dx * dx
        + dy * dy) < 2000000000000000000 && 0 <= 160000 * res < 200000000000 && 0 <= 160000 * res
        * res < 200000000000000000) by (nonlinear_arith)
        requires
            -res < dx < res,
            -res < dy < res,
            1 <= res <= 1000000,
    ;
    assert(ARRIVE_RADIUS_MIL * ARRIVE_RADIUS_MIL == 160000);
}

/// A pose a full cell or more away from the waypoint's center is outside
/// the arrival radius.
proof fn lemma_far_not_arrived(g: OccupancyGrid, pos: WorldPos, c: GridCell, dx: int, dy: int)
    requires
        g.wf(),
        dx == pos.x - g.cell_to_world_spec(c).x,
        dy == pos.y - g.cell_to_world_spec(c).y,
        dx >= g.resolution || dx <= -g.resolution || dy >= g.resolution || dy <= -g.resolution,
    ensures
        !arrived_at(g, pos, c),
{
    let res = g.resolution as int;
    assert(1000000 * (dx * dx + dy * dy) >= 400 * 400 * res * res) by (nonlinear_arith)
        requires
            1 <= res,
            dx >= res || dx <= -res || dy >= res || dy <= -res,
    ;
}

} // verus!
